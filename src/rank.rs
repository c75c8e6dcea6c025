use vstd::prelude::*;
use crate::lex::{lex_lt, compare_bytes, Order, lemma_lex_irreflexive, lemma_lex_transitive};
use crate::table::{FreqTable, sum, lemma_sum_update};

verus! {

/// A word with its number of occurrences.
pub struct WordCount {
    pub word: Vec<u8>,
    pub count: u64,
}

impl View for WordCount {
    type V = (Seq<u8>, u64);

    open spec fn view(&self) -> (Seq<u8>, u64) {
        (self.word@, self.count)
    }
}

/// `a` ranks ahead of `b`: a higher count, or the same count and a word
/// earlier in byte order.
pub open spec fn ranks_before(a: (Seq<u8>, u64), b: (Seq<u8>, u64)) -> bool {
    a.1 > b.1 || (a.1 == b.1 && lex_lt(a.0, b.0))
}

pub proof fn lemma_ranks_irreflexive(a: (Seq<u8>, u64))
    ensures
        !ranks_before(a, a),
{
    lemma_lex_irreflexive(a.0);
}

pub proof fn lemma_ranks_transitive(a: (Seq<u8>, u64), b: (Seq<u8>, u64), c: (Seq<u8>, u64))
    requires
        ranks_before(a, b),
        ranks_before(b, c),
    ensures
        ranks_before(a, c),
{
    if a.1 == b.1 && b.1 == c.1 {
        lemma_lex_transitive(a.0, b.0, c.0);
    }
}

/// Two sequences in strictly descending rank that hold the same entries are
/// the same sequence.
pub proof fn lemma_ranked_unique(a: Seq<(Seq<u8>, u64)>, b: Seq<(Seq<u8>, u64)>)
    requires
        ranked(a),
        ranked(b),
        forall|x: (Seq<u8>, u64)| a.contains(x) <==> b.contains(x),
    ensures
        a == b,
    decreases a.len(),
{
    if a.len() == 0 {
        if b.len() > 0 {
            assert(b.contains(b[0]));
        }
        assert(a =~= b);
    } else {
        assert(a.contains(a[0]));
        assert(b.contains(b[0]));
        let k = choose|k: int| 0 <= k < b.len() && b[k] == a[0];
        let m = choose|m: int| 0 <= m < a.len() && a[m] == b[0];
        lemma_ranks_irreflexive(a[0]);
        lemma_ranks_irreflexive(b[0]);
        if k > 0 {
            assert(ranks_before(b[0], b[k]));
            if m > 0 {
                assert(ranks_before(a[0], a[m]));
                lemma_ranks_transitive(a[0], b[0], a[0]);
            }
            assert(false);
        }
        let a2 = a.drop_first();
        let b2 = b.drop_first();
        assert forall|x: (Seq<u8>, u64)| a2.contains(x) <==> b2.contains(x) by {
            if a2.contains(x) {
                let i = choose|i: int| 0 <= i < a2.len() && a2[i] == x;
                assert(a[i + 1] == x);
                assert(ranks_before(a[0], a[i + 1]));
                assert(b.contains(x));
                let j = choose|j: int| 0 <= j < b.len() && b[j] == x;
                assert(j != 0);
                assert(b2[j - 1] == x);
            }
            if b2.contains(x) {
                let i = choose|i: int| 0 <= i < b2.len() && b2[i] == x;
                assert(b[i + 1] == x);
                assert(ranks_before(b[0], b[i + 1]));
                assert(a.contains(x));
                let j = choose|j: int| 0 <= j < a.len() && a[j] == x;
                assert(j != 0);
                assert(a2[j - 1] == x);
            }
        }
        assert forall|i: int, j: int| 0 <= i < j < a2.len() implies ranks_before(#[trigger] a2[i], #[trigger] a2[j]) by {
            assert(a2[i] == a[i + 1] && a2[j] == a[j + 1]);
        }
        assert forall|i: int, j: int| 0 <= i < j < b2.len() implies ranks_before(#[trigger] b2[i], #[trigger] b2[j]) by {
            assert(b2[i] == b[i + 1] && b2[j] == b[j + 1]);
        }
        lemma_ranked_unique(a2, b2);
        assert(a =~= seq![a[0]] + a2);
        assert(b =~= seq![b[0]] + b2);
    }
}

/// The views of a sequence of word counts.
pub open spec fn entries(v: Seq<WordCount>) -> Seq<(Seq<u8>, u64)> {
    v.map_values(|e: WordCount| e@)
}

/// The counts of a sequence of entries.
pub open spec fn counts_of(s: Seq<(Seq<u8>, u64)>) -> Seq<u64> {
    s.map_values(|e: (Seq<u8>, u64)| e.1)
}

/// `s` lists entries in strictly descending rank.
pub open spec fn ranked(s: Seq<(Seq<u8>, u64)>) -> bool {
    forall|i: int, j: int| 0 <= i < j < s.len() ==> ranks_before(#[trigger] s[i], #[trigger] s[j])
}

/// `s` holds exactly the entries of `t`'s table, one for each of its words.
pub open spec fn lists_table(s: Seq<(Seq<u8>, u64)>, t: FreqTable) -> bool {
    &&& s.len() == t.words().len()
    &&& forall|k: int|
        0 <= k < s.len() ==> exists|i: int|
            0 <= i < t.words().len() && #[trigger] s[k] == (t.words()[i], t.counts()[i])
    &&& forall|i: int|
        0 <= i < t.words().len() ==> exists|k: int|
            0 <= k < s.len() && s[k] == (#[trigger] t.words()[i], t.counts()[i])
}

/// The entry that the pair (count, index) stands for.
spec fn slot_entry(a: (u64, usize), words: Seq<Seq<u8>>) -> (Seq<u8>, u64) {
    (words[a.1 as int], a.0)
}

/// Pair `a` ranks ahead of pair `b`.
spec fn slot_before(a: (u64, usize), b: (u64, usize), words: Seq<Seq<u8>>) -> bool {
    ranks_before(slot_entry(a, words), slot_entry(b, words))
}

/// `o` is a permutation of the table's indices, each paired with its count,
/// and `inv` gives each index's position in `o`.
spec fn slots_of(o: Seq<(u64, usize)>, inv: Seq<int>, counts: Seq<u64>) -> bool {
    &&& o.len() == counts.len()
    &&& inv.len() == counts.len()
    &&& forall|k: int|
        0 <= k < o.len() ==> (#[trigger] o[k]).1 < counts.len() && o[k].0 == counts[o[k].1 as int]
    &&& forall|a: int, b: int| 0 <= a < b < o.len() ==> (#[trigger] o[a]).1 != (#[trigger] o[b]).1
    &&& forall|i: int|
        0 <= i < counts.len() ==> 0 <= #[trigger] inv[i] < o.len() && o[inv[i]].1 == i
}

/// Whether pair `a` ranks ahead of pair `b`; when it does not, `b` ranks
/// ahead of `a` or both stand for the same word.
fn slot_precedes(t: &FreqTable, a: (u64, usize), b: (u64, usize)) -> (r: bool)
    requires
        a.1 < t.words().len(),
        b.1 < t.words().len(),
    ensures
        r == slot_before(a, b, t.words()),
        !r ==> slot_before(b, a, t.words()) || t.words()[a.1 as int] == t.words()[b.1 as int],
{
    if a.0 != b.0 {
        a.0 > b.0
    } else {
        match compare_bytes(t.word(a.1), t.word(b.1)) {
            Order::Less => true,
            _ => false,
        }
    }
}

spec fn slot_counts(o: Seq<(u64, usize)>) -> Seq<u64> {
    o.map_values(|e: (u64, usize)| e.0)
}

/// The pairs (count, index) of the table, in index order.
fn initial_slots(t: &FreqTable) -> (o: Vec<(u64, usize)>)
    requires
        t.wf(),
    ensures
        o@.len() == t.counts().len(),
        forall|k: int| 0 <= k < o@.len() ==> #[trigger] o@[k] == (t.counts()[k], k as usize),
        sum(slot_counts(o@)) == t.spec_total(),
{
    let n = t.unique();
    proof {
        t.lemma_tallies();
    }
    let mut o: Vec<(u64, usize)> = Vec::new();
    let mut i: usize = 0;
    while i < n
        invariant
            n == t.words().len(),
            n == t.counts().len(),
            i <= n,
            o@.len() == i,
            forall|k: int| 0 <= k < i ==> #[trigger] o@[k] == (t.counts()[k], k as usize),
        decreases n - i,
    {
        o.push((t.count(i), i));
        i = i + 1;
    }
    assert(slot_counts(o@) =~= t.counts());
    o
}

/// Moves `o[i]` down into the sorted prefix `o[..i]`.
fn insert_slot(t: &FreqTable, o: &mut Vec<(u64, usize)>, i: usize, inv0: Ghost<Seq<int>>) -> (inv: Ghost<Seq<int>>)
    requires
        t.wf(),
        i < old(o)@.len(),
        slots_of(old(o)@, inv0@, t.counts()),
        forall|a: int, b: int| 0 <= a < b < i ==> slot_before(#[trigger] old(o)@[a], #[trigger] old(o)@[b], t.words()),
    ensures
        slots_of(final(o)@, inv@, t.counts()),
        sum(slot_counts(final(o)@)) == sum(slot_counts(old(o)@)),
        forall|a: int, b: int| 0 <= a < b <= i ==> slot_before(#[trigger] final(o)@[a], #[trigger] final(o)@[b], t.words()),
{
    proof {
        t.lemma_tallies();
    }
    let ghost words = t.words();
    let ghost mut inv = inv0@;
    let ghost total = sum(slot_counts(o@));
    let mut j: usize = i;
    while j > 0 && slot_precedes(t, o[j], o[j - 1])
        invariant
            words == t.words(),
            words.len() == t.counts().len(),
            0 <= j <= i < o@.len(),
            slots_of(o@, inv, t.counts()),
            sum(slot_counts(o@)) == total,
            forall|a: int, b: int|
                0 <= a < b <= i && a != j && b != j ==> slot_before(#[trigger] o@[a], #[trigger] o@[b], words),
            forall|b: int| j < b <= i ==> slot_before(o@[j as int], #[trigger] o@[b], words),
        decreases j,
    {
        let x = o[j];
        let y = o[j - 1];
        proof {
            let oo = o@;
            let s = slot_counts(oo);
            lemma_sum_update(s, j as int, y.0);
            lemma_sum_update(s.update(j as int, y.0), j - 1, x.0);
            assert(slot_counts(oo.update(j as int, y).update(j - 1, x)) =~= s.update(j as int, y.0).update(j - 1, x.0));
            inv = inv.update(x.1 as int, j - 1).update(y.1 as int, j as int);
        }
        o.set(j, y);
        o.set(j - 1, x);
        j = j - 1;
    }
    proof {
        if j > 0 {
            let p = o@[j - 1];
            let q = o@[j as int];
            if !slot_before(p, q, words) {
                assert(words[q.1 as int] == words[p.1 as int]);
                assert(q.1 != p.1);
                if q.1 < p.1 {
                    assert(words[q.1 as int] != words[p.1 as int]);
                } else {
                    assert(words[p.1 as int] != words[q.1 as int]);
                }
            }
            assert forall|a: int| 0 <= a < j implies slot_before(#[trigger] o@[a], q, words) by {
                if a < j - 1 {
                    lemma_ranks_transitive(slot_entry(o@[a], words), slot_entry(p, words), slot_entry(q, words));
                }
            }
        }
    }
    Ghost(inv)
}

/// Sorts pairs (count, index) by the rank of the entries they stand for.
fn sort_slots(t: &FreqTable, o: &mut Vec<(u64, usize)>, inv0: Ghost<Seq<int>>) -> (inv: Ghost<Seq<int>>)
    requires
        t.wf(),
        slots_of(old(o)@, inv0@, t.counts()),
    ensures
        slots_of(final(o)@, inv@, t.counts()),
        sum(slot_counts(final(o)@)) == sum(slot_counts(old(o)@)),
        forall|a: int, b: int| 0 <= a < b < final(o)@.len() ==> slot_before(#[trigger] final(o)@[a], #[trigger] final(o)@[b], t.words()),
{
    let ghost mut inv = inv0@;
    let ghost total = sum(slot_counts(o@));
    let n = o.len();
    let mut i: usize = 0;
    while i < n
        invariant
            t.wf(),
            n == o@.len(),
            i <= n,
            slots_of(o@, inv, t.counts()),
            sum(slot_counts(o@)) == total,
            forall|a: int, b: int| 0 <= a < b < i ==> slot_before(#[trigger] o@[a], #[trigger] o@[b], t.words()),
        decreases n - i,
    {
        let g = insert_slot(t, o, i, Ghost(inv));
        proof {
            inv = g@;
        }
        i = i + 1;
    }
    Ghost(inv)
}

/// Sorts the table's entries by descending count, ties in ascending byte
/// order of the word.
pub fn rank(t: &FreqTable) -> (r: Vec<WordCount>)
    requires
        t.wf(),
    ensures
        ranked(entries(r@)),
        lists_table(entries(r@), *t),
        sum(counts_of(entries(r@))) == t.spec_total(),
{
    let n = t.unique();
    proof {
        t.lemma_tallies();
    }
    let mut o = initial_slots(t);
    let ghost inv0 = Seq::new(n as nat, |k: int| k);
    assert(slots_of(o@, inv0, t.counts()));
    let inv = sort_slots(t, &mut o, Ghost(inv0));
    let ghost inv = inv@;
    let mut r: Vec<WordCount> = Vec::new();
    let mut k: usize = 0;
    while k < n
        invariant
            n == t.words().len(),
            n == t.counts().len(),
            t.wf(),
            k <= n,
            slots_of(o@, inv, t.counts()),
            sum(slot_counts(o@)) == t.spec_total(),
            forall|a: int, b: int| 0 <= a < b < n ==> slot_before(#[trigger] o@[a], #[trigger] o@[b], t.words()),
            r@.len() == k,
            forall|a: int| 0 <= a < k ==> #[trigger] r@[a]@ == (t.words()[o@[a].1 as int], o@[a].0),
        decreases n - k,
    {
        let (c, idx) = o[k];
        let w = t.word(idx);
        let copy = w.clone();
        assert(copy@ =~= w@);
        r.push(WordCount { word: copy, count: c });
        k = k + 1;
    }
    proof {
        let e = entries(r@);
        assert(counts_of(e) =~= slot_counts(o@));
        assert forall|a: int, b: int| 0 <= a < b < e.len() implies ranks_before(#[trigger] e[a], #[trigger] e[b]) by {
            assert(slot_before(o@[a], o@[b], t.words()));
            assert(r@[a]@ == e[a]);
            assert(r@[b]@ == e[b]);
        }
        assert forall|a: int| 0 <= a < e.len() implies exists|i: int|
            0 <= i < t.words().len() && #[trigger] e[a] == (t.words()[i], t.counts()[i]) by {
            assert(r@[a]@ == e[a]);
            let i = o@[a].1 as int;
            assert(o@[a].0 == t.counts()[i]);
        }
        assert forall|i: int| 0 <= i < t.words().len() implies exists|a: int|
            0 <= a < e.len() && e[a] == (#[trigger] t.words()[i], t.counts()[i]) by {
            let a = inv[i];
            assert(r@[a]@ == e[a]);
        }
    }
    r
}

} // verus!
