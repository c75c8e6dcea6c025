use wordcount::hash::fnv1a;
use wordcount::lex::{compare_bytes, Order};
use wordcount::number::format_number;
use wordcount::rank::rank;
use wordcount::report::{percent_hundredths, report_file_name};
use wordcount::stats::{count_words, tally, WordStats};
use wordcount::table::FreqTable;

fn pairs(r: &WordStats) -> Vec<(String, u64)> {
    r.ranked
        .iter()
        .map(|e| (String::from_utf8(e.word.clone()).unwrap(), e.count))
        .collect()
}

#[test]
fn case_is_folded() {
    let r = count_words(b"The the THE");
    assert_eq!(pairs(&r), vec![("the".to_string(), 3)]);
    assert_eq!(r.total, 3);
    assert_eq!(r.unique, 1);
}

#[test]
fn punctuation_separates_words() {
    let r = count_words(b"hello, world! hello...");
    assert_eq!(
        pairs(&r),
        vec![("hello".to_string(), 2), ("world".to_string(), 1)]
    );
    assert_eq!(r.total, 3);
    assert_eq!(r.unique, 2);
    assert_eq!(r.bytes, 22);
}

#[test]
fn no_letters_gives_no_words() {
    let r = count_words(b"1234 !!! ---");
    assert_eq!(r.total, 0);
    assert_eq!(r.unique, 0);
    assert!(r.ranked.is_empty());
    assert_eq!(percent_hundredths(0, r.total), 0);
}

#[test]
fn empty_input() {
    let r = count_words(b"");
    assert_eq!(r.total, 0);
    assert_eq!(r.unique, 0);
    assert_eq!(r.bytes, 0);
    assert!(r.ranked.is_empty());
}

#[test]
fn grouping_of_thousands() {
    assert_eq!(format_number(1234567), "1,234,567");
    assert_eq!(format_number(42), "42");
    assert_eq!(format_number(12345), "12,345");
    assert_eq!(format_number(0), "0");
    assert_eq!(format_number(999), "999");
    assert_eq!(format_number(1000), "1,000");
    assert_eq!(format_number(1000005), "1,000,005");
    assert_eq!(format_number(u64::MAX), "18,446,744,073,709,551,615");
}

#[test]
fn equal_counts_rank_by_word() {
    let r = count_words(b"b a c a b d");
    assert_eq!(
        pairs(&r),
        vec![
            ("a".to_string(), 2),
            ("b".to_string(), 2),
            ("c".to_string(), 1),
            ("d".to_string(), 1)
        ]
    );
}

#[test]
fn ranking_is_ordered() {
    let text = b"one two two three three three four four four four a ab abc b ba";
    let r = count_words(text);
    for pair in r.ranked.windows(2) {
        let (x, y) = (&pair[0], &pair[1]);
        assert!(x.count > y.count || (x.count == y.count && x.word < y.word));
    }
    assert_eq!(pairs(&r)[0], ("four".to_string(), 4));
}

#[test]
fn counts_sum_to_total() {
    let r = count_words(b"It was the best of times, it was the worst of times.");
    let sum: u64 = r.ranked.iter().map(|e| e.count).sum();
    assert_eq!(sum, r.total);
    assert_eq!(r.total, 12);
    assert_eq!(r.unique, 7);
}

#[test]
fn words_are_lowercase_letters() {
    let r = count_words(b"Hello WORLD x9y _under_score \t\nMiXeD");
    for e in &r.ranked {
        assert!(!e.word.is_empty());
        assert!(e.word.iter().all(|b| b.is_ascii_lowercase()));
    }
    assert_eq!(r.unique, 7);
}

#[test]
fn same_input_same_result() {
    let text = b"the quick brown fox jumps over the lazy dog; THE END";
    let a = count_words(text);
    let b = count_words(text);
    assert_eq!(pairs(&a), pairs(&b));
    assert_eq!(a.total, b.total);
    assert_eq!(a.unique, b.unique);
    assert_eq!(a.bytes, b.bytes);
}

#[test]
fn non_ascii_bytes_separate() {
    let r = count_words("cafés naïve".as_bytes());
    assert_eq!(
        pairs(&r),
        vec![
            ("caf".to_string(), 1),
            ("na".to_string(), 1),
            ("s".to_string(), 1),
            ("ve".to_string(), 1)
        ]
    );
}

#[test]
fn last_word_without_separator() {
    let r = count_words(b"end end");
    assert_eq!(pairs(&r), vec![("end".to_string(), 2)]);
}

#[test]
fn table_keeps_first_occurrence_order() {
    let mut t = FreqTable::new();
    t.add(&b"pear".to_vec());
    t.add(&b"apple".to_vec());
    t.add(&b"pear".to_vec());
    t.add(&b"fig".to_vec());
    assert_eq!(t.total(), 4);
    assert_eq!(t.unique(), 3);
    assert_eq!(t.word(0), &b"pear".to_vec());
    assert_eq!(t.word(1), &b"apple".to_vec());
    assert_eq!(t.word(2), &b"fig".to_vec());
    assert_eq!(t.count(0), 2);
    assert_eq!(t.count(1), 1);
    let ranked = rank(&t);
    assert_eq!(ranked[0].word, b"pear".to_vec());
    assert_eq!(ranked[0].count, 2);
    assert_eq!(ranked[1].word, b"apple".to_vec());
}

#[test]
fn tally_counts_words() {
    let t = tally(b"a b a");
    assert_eq!(t.total(), 3);
    assert_eq!(t.unique(), 2);
    assert_eq!(t.count(0), 2);
}

#[test]
fn byte_order() {
    assert!(matches!(compare_bytes(&b"ab".to_vec(), &b"abc".to_vec()), Order::Less));
    assert!(matches!(compare_bytes(&b"b".to_vec(), &b"abc".to_vec()), Order::Greater));
    assert!(matches!(compare_bytes(&b"abc".to_vec(), &b"abc".to_vec()), Order::Equal));
    assert!(matches!(compare_bytes(&Vec::new(), &b"a".to_vec()), Order::Less));
}

#[test]
fn percentages() {
    assert_eq!(percent_hundredths(1, 4), 2500);
    assert_eq!(percent_hundredths(1, 3), 3333);
    assert_eq!(percent_hundredths(2, 3), 6667);
    assert_eq!(percent_hundredths(5, 5), 10000);
    assert_eq!(percent_hundredths(0, 0), 0);
}

#[test]
fn report_names() {
    assert_eq!(report_file_name(b"book.txt"), b"book_rust_results.txt".to_vec());
    assert_eq!(report_file_name(b"a.b.c"), b"a.b_rust_results.txt".to_vec());
    assert_eq!(report_file_name(b"noext"), b"noext_rust_results.txt".to_vec());
    assert_eq!(report_file_name(b"a.tar.gz"), b"a.tar_rust_results.txt".to_vec());
    assert_eq!(report_file_name(b"README"), b"README_rust_results.txt".to_vec());
    assert_eq!(report_file_name(b"dir.d/file"), b"dir_rust_results.txt".to_vec());
}

#[test]
fn fnv1a_vectors() {
    assert_eq!(fnv1a(b""), 0xcbf29ce484222325);
    assert_eq!(fnv1a(b"a"), 0xaf63dc4c8601ec8c);
    assert_eq!(fnv1a(b"foobar"), 0x85944171f73967e8);
}

#[test]
fn many_distinct_words() {
    let mut text = Vec::new();
    for i in 0..2000u32 {
        let mut n = i;
        let mut w = Vec::new();
        loop {
            w.push(b'a' + (n % 26) as u8);
            n /= 26;
            if n == 0 {
                break;
            }
        }
        for _ in 0..(i % 3 + 1) {
            text.extend_from_slice(&w);
            text.push(b' ');
        }
    }
    let r = count_words(&text);
    assert_eq!(r.unique, 2000);
    let sum: u64 = r.ranked.iter().map(|e| e.count).sum();
    assert_eq!(sum, r.total);
    for pair in r.ranked.windows(2) {
        let (x, y) = (&pair[0], &pair[1]);
        assert!(x.count > y.count || (x.count == y.count && x.word < y.word));
    }
    assert_eq!(r.ranked[0].count, 3);
}
