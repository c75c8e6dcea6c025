use vstd::prelude::*;
use crate::token::{is_alpha, to_lower, is_token, scan, tokens, occ, lemma_scan_len, lemma_scan_well_formed, lemma_tokens_well_formed, lemma_occ_member};
use crate::table::{FreqTable, sum};
use crate::rank::{WordCount, entries, counts_of, ranked, ranks_before, rank, lists_table, lemma_ranked_unique};
use crate::lex::lex_lt;

verus! {

/// The outcome of counting the words of an input.
pub struct WordStats {
    /// Every distinct word with its count, by descending count, ties in
    /// ascending byte order of the word.
    pub ranked: Vec<WordCount>,
    /// The number of words, repeats included.
    pub total: u64,
    /// The number of distinct words.
    pub unique: usize,
    /// The length of the input in bytes.
    pub bytes: usize,
}

/// `r` is the outcome of counting the words of `input`.
pub open spec fn describes(r: WordStats, input: Seq<u8>) -> bool {
    let ts = tokens(input);
    let e = entries(r.ranked@);
    &&& ranked(e)
    &&& forall|k: int|
        0 <= k < e.len() ==> (#[trigger] e[k]).1 == occ(ts, e[k].0) && e[k].1 >= 1 && is_token(
            e[k].0,
        )
    &&& forall|w: Seq<u8>| #[trigger] occ(ts, w) > 0 ==> exists|k: int| 0 <= k < e.len() && e[k].0 == w
    &&& r.total == ts.len()
    &&& r.unique == e.len()
    &&& r.bytes == input.len()
    &&& sum(counts_of(e)) == r.total
}

fn is_ascii_letter(b: u8) -> (r: bool)
    ensures
        r == is_alpha(b),
{
    (65 <= b && b <= 90) || (97 <= b && b <= 122)
}

fn ascii_lower(b: u8) -> (r: u8)
    ensures
        r == to_lower(b),
{
    if 65 <= b && b <= 90 {
        b + 32
    } else {
        b
    }
}

/// Tallies the words of `input` in one pass.
pub fn tally(input: &[u8]) -> (t: FreqTable)
    ensures
        t.wf(),
        t.seen() == tokens(input@),
{
    let mut t = FreqTable::new();
    let mut pending: Vec<u8> = Vec::new();
    let mut i: usize = 0;
    while i < input.len()
        invariant
            i <= input@.len(),
            t.wf(),
            t.seen() == scan(input@.subrange(0, i as int)).0,
            pending@ == scan(input@.subrange(0, i as int)).1,
            t.spec_total() == t.seen().len(),
        decreases input@.len() - i,
    {
        let ghost prefix = input@.subrange(0, i as int);
        let ghost next = input@.subrange(0, i + 1);
        proof {
            assert(next.drop_last() =~= prefix);
            assert(next.last() == input@[i as int]);
            lemma_scan_len(prefix);
            lemma_scan_well_formed(prefix);
            t.lemma_tallies();
        }
        let b = input[i];
        if is_ascii_letter(b) {
            pending.push(ascii_lower(b));
        } else if pending.len() > 0 {
            t.add(&pending);
            pending.clear();
        }
        i = i + 1;
    }
    assert(input@.subrange(0, input@.len() as int) =~= input@);
    if pending.len() > 0 {
        proof {
            lemma_scan_len(input@);
            lemma_scan_well_formed(input@);
            t.lemma_tallies();
        }
        t.add(&pending);
    }
    t
}

proof fn lemma_listing_counts(t: FreqTable, e: Seq<(Seq<u8>, u64)>, input: Seq<u8>)
    requires
        t.wf(),
        t.seen() == tokens(input),
        lists_table(e, t),
    ensures
        forall|k: int|
            0 <= k < e.len() ==> (#[trigger] e[k]).1 == occ(tokens(input), e[k].0) && e[k].1 >= 1
                && is_token(e[k].0),
        forall|w: Seq<u8>| #[trigger] occ(tokens(input), w) > 0 ==> exists|k: int| 0 <= k < e.len() && e[k].0 == w,
{
    t.lemma_tallies();
    let ws = t.words();
    let cs = t.counts();
    assert forall|k: int| 0 <= k < e.len() implies (#[trigger] e[k]).1 == occ(tokens(input), e[k].0)
        && e[k].1 >= 1 && is_token(e[k].0) by {
        let i = choose|i: int| 0 <= i < ws.len() && e[k] == (ws[i], cs[i]);
    }
    assert forall|w: Seq<u8>| #[trigger] occ(tokens(input), w) > 0 implies exists|k: int|
        0 <= k < e.len() && e[k].0 == w by {
        let i = choose|i: int| 0 <= i < ws.len() && ws[i] == w;
        let k = choose|k: int| 0 <= k < e.len() && e[k] == (ws[i], cs[i]);
    }
}

/// In the ranking, each entry's count is at least the next one's, and where
/// the two counts are equal the earlier word comes first in byte order.
pub proof fn lemma_adjacent_entries_ordered(input: Seq<u8>, r: WordStats)
    requires
        describes(r, input),
    ensures
        forall|i: int|
            0 <= i < entries(r.ranked@).len() - 1 ==> (#[trigger] entries(r.ranked@)[i]).1 >= entries(
                r.ranked@,
            )[i + 1].1 && (entries(r.ranked@)[i].1 == entries(r.ranked@)[i + 1].1 ==> lex_lt(
                entries(r.ranked@)[i].0,
                entries(r.ranked@)[i + 1].0,
            )),
{
    let e = entries(r.ranked@);
    assert forall|i: int| 0 <= i < e.len() - 1 implies (#[trigger] e[i]).1 >= e[i + 1].1 && (e[i].1
        == e[i + 1].1 ==> lex_lt(e[i].0, e[i + 1].0)) by {
        assert(ranks_before(e[i], e[i + 1]));
    }
}

/// Every word that the tally of `input` counts is non-empty and made of
/// lowercase ASCII letters.
pub proof fn lemma_counted_words_well_formed(input: Seq<u8>, w: Seq<u8>)
    requires
        occ(tokens(input), w) > 0,
    ensures
        is_token(w),
{
    lemma_tokens_well_formed(input);
    lemma_occ_member(tokens(input), w);
}

/// Counting the words of byte-identical inputs twice gives the same ranking
/// and the same figures.
pub proof fn lemma_count_deterministic(input: Seq<u8>, r1: WordStats, r2: WordStats)
    requires
        describes(r1, input),
        describes(r2, input),
    ensures
        entries(r1.ranked@) == entries(r2.ranked@),
        r1.total == r2.total,
        r1.unique == r2.unique,
        r1.bytes == r2.bytes,
{
    let ts = tokens(input);
    let e1 = entries(r1.ranked@);
    let e2 = entries(r2.ranked@);
    assert forall|x: (Seq<u8>, u64)| e1.contains(x) <==> e2.contains(x) by {
        if e1.contains(x) {
            let k = choose|k: int| 0 <= k < e1.len() && e1[k] == x;
            assert(occ(ts, x.0) > 0);
            let j = choose|j: int| 0 <= j < e2.len() && e2[j].0 == x.0;
            assert(e2[j] == x);
        }
        if e2.contains(x) {
            let k = choose|k: int| 0 <= k < e2.len() && e2[k] == x;
            assert(occ(ts, x.0) > 0);
            let j = choose|j: int| 0 <= j < e1.len() && e1[j].0 == x.0;
            assert(e1[j] == x);
        }
    }
    lemma_ranked_unique(e1, e2);
}

/// Counts the words of `input`: maximal runs of ASCII letters, lowercased;
/// every other byte separates words.
pub fn count_words(input: &[u8]) -> (r: WordStats)
    ensures
        describes(r, input@),
{
    let t = tally(input);
    let ranked = rank(&t);
    proof {
        lemma_listing_counts(t, entries(ranked@), input@);
        t.lemma_tallies();
    }
    let r = WordStats { ranked, total: t.total(), unique: t.unique(), bytes: input.len() };
    assert(entries(r.ranked@) == entries(ranked@));
    r
}

} // verus!
