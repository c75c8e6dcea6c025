use vstd::prelude::*;
use crate::lex::{compare_bytes, Order};
use crate::hash::{fnv1a, fnv1a_of};
use crate::token::{is_token, occ, lemma_occ_push};

verus! {

/// The sum of a sequence of counts.
pub open spec fn sum(s: Seq<u64>) -> nat
    decreases s.len(),
{
    if s.len() == 0 {
        0
    } else {
        sum(s.drop_last()) + s.last() as nat
    }
}

pub proof fn lemma_sum_update(s: Seq<u64>, i: int, v: u64)
    requires
        0 <= i < s.len(),
    ensures
        sum(s.update(i, v)) + s[i] == sum(s) + v,
    decreases s.len(),
{
    if i < s.len() - 1 {
        assert(s.update(i, v).drop_last() =~= s.drop_last().update(i, v));
        lemma_sum_update(s.drop_last(), i, v);
    } else {
        assert(s.update(i, v).drop_last() =~= s.drop_last());
    }
}

pub proof fn lemma_sum_bounds(s: Seq<u64>, i: int)
    requires
        0 <= i < s.len(),
    ensures
        s[i] <= sum(s),
    decreases s.len(),
{
    if i < s.len() - 1 {
        lemma_sum_bounds(s.drop_last(), i);
    }
}

/// The number of buckets of a frequency table.
pub const BUCKETS: usize = 4096;

/// The bucket that holds word `w`.
pub open spec fn bucket_of(w: Seq<u8>) -> int {
    (fnv1a_of(w) % (BUCKETS as u64)) as int
}

/// The counts of a sequence of words: `words` distinct, `counts` alongside,
/// each count the number of times its word occurs in `seen`, and every word
/// of `seen` present.
pub open spec fn tallies(words: Seq<Seq<u8>>, counts: Seq<u64>, seen: Seq<Seq<u8>>) -> bool {
    &&& words.len() == counts.len()
    &&& forall|i: int, j: int|
        0 <= i < j < words.len() ==> #[trigger] words[i] != #[trigger] words[j]
    &&& forall|i: int|
        0 <= i < words.len() ==> is_token(#[trigger] words[i]) && counts[i] >= 1 && counts[i]
            == occ(seen, words[i])
    &&& forall|w: Seq<u8>|
        #[trigger] occ(seen, w) > 0 ==> exists|i: int| 0 <= i < words.len() && words[i] == w
}

/// Index `i` is listed in the bucket of word `w`.
pub open spec fn listed(buckets: Seq<Vec<usize>>, w: Seq<u8>, i: int) -> bool {
    exists|k: int| 0 <= k < buckets[bucket_of(w)]@.len() && #[trigger] buckets[bucket_of(w)]@[k] == i
}

/// A frequency table: each distinct word, in order of first occurrence, with
/// the number of its occurrences, and the number of words added. Words are
/// found through buckets chosen by their FNV-1a hash.
pub struct FreqTable {
    words: Vec<Vec<u8>>,
    counts: Vec<u64>,
    buckets: Vec<Vec<usize>>,
    total: u64,
    seen: Ghost<Seq<Seq<u8>>>,
}

impl FreqTable {
    /// The words added so far, in order.
    pub closed spec fn seen(&self) -> Seq<Seq<u8>> {
        self.seen@
    }

    /// The distinct words, in order of first occurrence.
    pub closed spec fn words(&self) -> Seq<Seq<u8>> {
        self.words@.map_values(|v: Vec<u8>| v@)
    }

    /// The count of each word of `words()`, at the same index.
    pub closed spec fn counts(&self) -> Seq<u64> {
        self.counts@
    }

    /// The number of words added, repeats included.
    pub closed spec fn spec_total(&self) -> nat {
        self.total as nat
    }

    /// Each bucket lists indices of words that hash to it, and every word's
    /// index is listed in its bucket.
    pub closed spec fn buckets_index(&self) -> bool {
        let ws = self.words();
        &&& self.buckets@.len() == BUCKETS
        &&& forall|b: int, k: int|
            0 <= b < BUCKETS && 0 <= k < self.buckets@[b]@.len() ==> (#[trigger] self.buckets@[b]@[k])
                < ws.len() && bucket_of(ws[self.buckets@[b]@[k] as int]) == b
        &&& forall|i: int| 0 <= i < ws.len() ==> listed(self.buckets@, #[trigger] ws[i], i)
    }

    proof fn lemma_buckets_index_frame(&self, other: &FreqTable)
        requires
            self.buckets_index(),
            self.words() == other.words(),
            self.buckets@ == other.buckets@,
        ensures
            other.buckets_index(),
    {
        let ws = other.words();
        assert forall|i: int| 0 <= i < ws.len() implies listed(other.buckets@, #[trigger] ws[i], i) by {
            assert(self.words()[i] == ws[i]);
        }
    }

    /// The table tallies `seen()`, its total is the sum of its counts, and its
    /// buckets index its words.
    pub closed spec fn wf(&self) -> bool {
        &&& tallies(self.words(), self.counts(), self.seen())
        &&& self.total == self.seen@.len()
        &&& sum(self.counts@) == self.total
        &&& self.buckets_index()
    }

    /// Each word is non-empty lowercase ASCII, occurs in `seen()` as often as
    /// its count says, and every word of `seen()` is present once.
    pub proof fn lemma_tallies(&self)
        requires
            self.wf(),
        ensures
            tallies(self.words(), self.counts(), self.seen()),
            sum(self.counts()) == self.spec_total(),
            self.spec_total() == self.seen().len(),
    {
    }

    /// An empty table.
    pub fn new() -> (r: FreqTable)
        ensures
            r.wf(),
            r.seen() == Seq::<Seq<u8>>::empty(),
            r.words().len() == 0,
            r.spec_total() == 0,
    {
        let mut buckets: Vec<Vec<usize>> = Vec::new();
        let mut b: usize = 0;
        while b < BUCKETS
            invariant
                b <= BUCKETS,
                buckets@.len() == b,
                forall|c: int| 0 <= c < b ==> (#[trigger] buckets@[c])@.len() == 0,
            decreases BUCKETS - b,
        {
            buckets.push(Vec::new());
            b = b + 1;
        }
        let r = FreqTable { words: Vec::new(), counts: Vec::new(), buckets, total: 0, seen: Ghost(Seq::empty()) };
        assert(r.words() =~= Seq::<Seq<u8>>::empty());
        r
    }

    /// The number of words added.
    pub fn total(&self) -> (r: u64)
        ensures
            r == self.spec_total(),
    {
        self.total
    }

    /// The number of distinct words.
    pub fn unique(&self) -> (r: usize)
        ensures
            r == self.words().len(),
    {
        self.words.len()
    }

    /// The `i`-th distinct word in order of first occurrence.
    pub fn word(&self, i: usize) -> (r: &Vec<u8>)
        requires
            i < self.words().len(),
        ensures
            r@ == self.words()[i as int],
    {
        &self.words[i]
    }

    /// The count of the `i`-th distinct word.
    pub fn count(&self, i: usize) -> (r: u64)
        requires
            i < self.counts().len(),
        ensures
            r == self.counts()[i as int],
    {
        self.counts[i]
    }

    /// Counts one more occurrence of `w`.
    pub fn add(&mut self, w: &Vec<u8>)
        requires
            old(self).wf(),
            is_token(w@),
            old(self).spec_total() < u64::MAX,
        ensures
            final(self).wf(),
            final(self).seen() == old(self).seen().push(w@),
            final(self).spec_total() == old(self).spec_total() + 1,
    {
        let ghost ws = self.words();
        let ghost seen2 = self.seen@.push(w@);
        proof {
            assert forall|u: Seq<u8>| #[trigger] occ(seen2, u) == occ(self.seen@, u) + if u == w@ {
                1nat
            } else {
                0nat
            } by {
                lemma_occ_push(self.seen@, w@, u);
            }
        }
        let h = fnv1a(w.as_slice());
        let b = (h % (BUCKETS as u64)) as usize;
        let n_b = self.buckets[b].len();
        let mut k: usize = 0;
        while k < n_b
            invariant
                self.wf(),
                self.words() == ws,
                ws == old(self).words(),
                self.seen@ == old(self).seen@,
                self.counts@ == old(self).counts@,
                self.buckets@ == old(self).buckets@,
                self.total == old(self).total,
                self.total < u64::MAX,
                seen2 == old(self).seen@.push(w@),
                forall|u: Seq<u8>| #[trigger] occ(seen2, u) == occ(old(self).seen@, u) + if u == w@ {
                    1nat
                } else {
                    0nat
                },
                b == bucket_of(w@),
                n_b == self.buckets@[b as int]@.len(),
                k <= n_b,
                forall|q: int| 0 <= q < k ==> ws[#[trigger] self.buckets@[b as int]@[q] as int] != w@,
            decreases n_b - k,
        {
            let idx = self.buckets[b][k];
            assert(self.words@[idx as int]@ == ws[idx as int]);
            match compare_bytes(&self.words[idx], w) {
                Order::Equal => {
                    let c = self.counts[idx];
                    proof {
                        lemma_sum_bounds(self.counts@, idx as int);
                        lemma_sum_update(self.counts@, idx as int, (c + 1) as u64);
                    }
                    self.counts[idx] = c + 1;
                    self.total = self.total + 1;
                    self.seen = Ghost(seen2);
                    proof {
                        assert(self.words() == ws);
                        assert forall|i: int| 0 <= i < ws.len() && i != idx implies ws[i] != w@ by {
                            if i < idx {
                                assert(ws[i] != ws[idx as int]);
                            } else {
                                assert(ws[idx as int] != ws[i]);
                            }
                        }
                        assert forall|u: Seq<u8>| #[trigger] occ(seen2, u) > 0 implies exists|i: int|
                            0 <= i < ws.len() && ws[i] == u by {
                            if u == w@ {
                                assert(ws[idx as int] == u);
                            } else {
                                assert(occ(old(self).seen@, u) > 0);
                            }
                        }
                    }
                    proof {
                        old(self).lemma_buckets_index_frame(self);
                    }
                    assert(tallies(self.words(), self.counts(), self.seen()));
                    assert(sum(self.counts@) == self.total);
                    return ;
                },
                _ => {},
            }
            k = k + 1;
        }
        let n = self.words.len();
        proof {
            assert forall|i: int| 0 <= i < ws.len() implies ws[i] != w@ by {
                if ws[i] == w@ {
                    assert(listed(self.buckets@, ws[i], i));
                    let q = choose|q: int|
                        0 <= q < self.buckets@[bucket_of(ws[i])]@.len() && self.buckets@[bucket_of(
                            ws[i],
                        )]@[q] == i;
                    assert(ws[self.buckets@[b as int]@[q] as int] != w@);
                }
            }
            if occ(self.seen@, w@) > 0 {
                let i = choose|i: int| 0 <= i < ws.len() && ws[i] == w@;
                assert(false);
            }
            assert(occ(seen2, w@) == 1);
            assert(self.counts@.push(1).drop_last() =~= self.counts@);
        }
        let ghost old_words = self.words@;
        let ghost old_counts = self.counts@;
        let ghost old_buckets = self.buckets@;
        let copy = w.clone();
        assert(copy@ =~= w@);
        let mut nb: Vec<usize> = Vec::new();
        let mut m: usize = 0;
        while m < n_b
            invariant
                m <= n_b,
                n_b == old_buckets[b as int]@.len(),
                self.buckets@ == old_buckets,
                0 <= b < old_buckets.len(),
                nb@ == old_buckets[b as int]@.subrange(0, m as int),
            decreases n_b - m,
        {
            nb.push(self.buckets[b][m]);
            m = m + 1;
        }
        nb.push(n);
        self.buckets.set(b, nb);
        self.words.push(copy);
        self.counts.push(1);
        self.total = self.total + 1;
        self.seen = Ghost(seen2);
        proof {
            let nw = self.words();
            assert(nw =~= ws.push(w@));
            let bk = self.buckets@;
            assert(bk[b as int]@ =~= old_buckets[b as int]@.push(n));
            assert forall|i: int, j: int| 0 <= i < j < nw.len() implies #[trigger] nw[i] != #[trigger] nw[j] by {
                if j == n {
                    assert(ws[i] != w@);
                } else {
                    assert(ws[i] != ws[j]);
                }
            }
            assert forall|i: int| 0 <= i < nw.len() implies is_token(#[trigger] nw[i])
                && self.counts@[i] >= 1 && self.counts@[i] == occ(seen2, nw[i]) by {
                if i < n {
                    assert(nw[i] == ws[i]);
                    assert(self.counts@[i] == old_counts[i]);
                    assert(ws[i] != w@);
                } else {
                    assert(nw[i] == w@);
                }
            }
            assert forall|u: Seq<u8>| #[trigger] occ(seen2, u) > 0 implies exists|i: int|
                0 <= i < nw.len() && nw[i] == u by {
                if u == w@ {
                    assert(nw[n as int] == u);
                } else {
                    assert(occ(old(self).seen@, u) > 0);
                    let i = choose|i: int| 0 <= i < ws.len() && ws[i] == u;
                    assert(nw[i] == u);
                }
            }
            assert forall|c: int, q: int| 0 <= c < BUCKETS && 0 <= q < bk[c]@.len() implies (#[trigger] bk[c]@[q])
                < nw.len() && bucket_of(nw[bk[c]@[q] as int]) == c by {
                if c == b && q == n_b {
                } else {
                    assert(bk[c]@[q] == old_buckets[c]@[q]);
                    assert(old_buckets[c]@[q] < ws.len());
                    assert(nw[bk[c]@[q] as int] == ws[old_buckets[c]@[q] as int]);
                }
            }
            assert forall|i: int| 0 <= i < nw.len() implies listed(bk, #[trigger] nw[i], i) by {
                if i == n {
                    assert(bk[b as int]@[n_b as int] == i);
                } else {
                    assert(nw[i] == ws[i]);
                    assert(listed(old_buckets, ws[i], i));
                    let q = choose|q: int|
                        0 <= q < old_buckets[bucket_of(ws[i])]@.len() && old_buckets[bucket_of(ws[i])]@[q] == i;
                    assert(bk[bucket_of(nw[i])]@[q] == i);
                }
            }
            assert(bk.len() == BUCKETS);
            assert(self.buckets_index());
            assert(tallies(nw, self.counts(), self.seen()));
            assert(sum(self.counts@) == self.total);
        }
    }
}

} // verus!
