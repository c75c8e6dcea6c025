use vstd::prelude::*;

verus! {

/// An ASCII letter, either case.
pub open spec fn is_alpha(b: u8) -> bool {
    (65 <= b && b <= 90) || (97 <= b && b <= 122)
}

/// ASCII lowercasing; other bytes are kept.
pub open spec fn to_lower(b: u8) -> u8 {
    if 65 <= b && b <= 90 {
        (b + 32) as u8
    } else {
        b
    }
}

/// A word: non-empty, lowercase ASCII letters only.
pub open spec fn is_token(t: Seq<u8>) -> bool {
    t.len() > 0 && forall|i: int| 0 <= i < t.len() ==> 97 <= #[trigger] t[i] && t[i] <= 122
}

/// The state after scanning `s` left to right: the words already ended by a
/// separator, and the pending run of lowercased letters.
pub open spec fn scan(s: Seq<u8>) -> (Seq<Seq<u8>>, Seq<u8>)
    decreases s.len(),
{
    if s.len() == 0 {
        (Seq::empty(), Seq::empty())
    } else {
        let (done, pending) = scan(s.drop_last());
        let b = s.last();
        if is_alpha(b) {
            (done, pending.push(to_lower(b)))
        } else if pending.len() > 0 {
            (done.push(pending), Seq::empty())
        } else {
            (done, pending)
        }
    }
}

/// The words of `s`: every maximal run of ASCII letters, lowercased, in order.
pub open spec fn tokens(s: Seq<u8>) -> Seq<Seq<u8>> {
    let (done, pending) = scan(s);
    if pending.len() > 0 {
        done.push(pending)
    } else {
        done
    }
}

/// How many times `w` occurs in `ts`.
pub open spec fn occ(ts: Seq<Seq<u8>>, w: Seq<u8>) -> nat
    decreases ts.len(),
{
    if ts.len() == 0 {
        0
    } else {
        occ(ts.drop_last(), w) + if ts.last() == w {
            1nat
        } else {
            0nat
        }
    }
}

pub proof fn lemma_occ_push(ts: Seq<Seq<u8>>, t: Seq<u8>, w: Seq<u8>)
    ensures
        occ(ts.push(t), w) == occ(ts, w) + if t == w {
            1nat
        } else {
            0nat
        },
{
    assert(ts.push(t).drop_last() =~= ts);
}

/// A word that occurs in `ts` is one of its elements.
pub proof fn lemma_occ_member(ts: Seq<Seq<u8>>, w: Seq<u8>)
    requires
        occ(ts, w) > 0,
    ensures
        exists|i: int| 0 <= i < ts.len() && ts[i] == w,
    decreases ts.len(),
{
    if ts.last() == w {
        assert(ts[ts.len() - 1] == w);
    } else {
        lemma_occ_member(ts.drop_last(), w);
        let i = choose|i: int| 0 <= i < ts.len() - 1 && ts.drop_last()[i] == w;
        assert(ts[i] == w);
    }
}

/// Every completed word of a scan is a word, and the pending run holds only
/// lowercase letters.
pub proof fn lemma_scan_well_formed(s: Seq<u8>)
    ensures
        forall|i: int| 0 <= i < scan(s).0.len() ==> is_token(#[trigger] scan(s).0[i]),
        forall|i: int| 0 <= i < scan(s).1.len() ==> 97 <= #[trigger] scan(s).1[i] && scan(s).1[i] <= 122,
    decreases s.len(),
{
    if s.len() > 0 {
        lemma_scan_well_formed(s.drop_last());
        let (done, pending) = scan(s.drop_last());
        let b = s.last();
        if is_alpha(b) {
            let p2 = pending.push(to_lower(b));
            assert(forall|i: int| 0 <= i < p2.len() ==> 97 <= #[trigger] p2[i] && p2[i] <= 122) by {
                assert(forall|i: int| 0 <= i < pending.len() ==> p2[i] == pending[i]);
            }
        } else if pending.len() > 0 {
            let d2 = done.push(pending);
            assert(is_token(pending));
            assert(forall|i: int| 0 <= i < d2.len() ==> is_token(#[trigger] d2[i])) by {
                assert(forall|i: int| 0 <= i < done.len() ==> d2[i] == done[i]);
            }
        }
    }
}

/// A scan of `s` yields at most one word per byte, counting the pending run.
pub proof fn lemma_scan_len(s: Seq<u8>)
    ensures
        scan(s).0.len() + (if scan(s).1.len() > 0 {
            1int
        } else {
            0int
        }) <= s.len(),
    decreases s.len(),
{
    if s.len() > 0 {
        lemma_scan_len(s.drop_last());
    }
}

/// Every word of `s` is non-empty and made of lowercase ASCII letters.
pub proof fn lemma_tokens_well_formed(s: Seq<u8>)
    ensures
        forall|i: int| 0 <= i < tokens(s).len() ==> is_token(#[trigger] tokens(s)[i]),
{
    lemma_scan_well_formed(s);
    let (done, pending) = scan(s);
    if pending.len() > 0 {
        let d2 = done.push(pending);
        assert(is_token(pending));
        assert(forall|i: int| 0 <= i < done.len() ==> d2[i] == done[i]);
    }
}

} // verus!
