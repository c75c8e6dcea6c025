use vstd::prelude::*;

verus! {

/// `a` and `b` have at least `n` bytes each and agree on the first `n`.
pub open spec fn agree_upto(a: Seq<u8>, b: Seq<u8>, n: int) -> bool {
    0 <= n <= a.len() && n <= b.len() && forall|j: int| 0 <= j < n ==> a[j] == b[j]
}

/// `n` is where `a` first falls below `b`: either `a` ends there and `b` goes
/// on, or both go on and `a`'s byte is smaller.
pub open spec fn falls_below_at(a: Seq<u8>, b: Seq<u8>, n: int) -> bool {
    agree_upto(a, b, n) && ((n == a.len() && n < b.len()) || (n < a.len() && n < b.len() && a[n]
        < b[n]))
}

/// Byte-lexicographic strict order: `a` comes before `b`.
pub open spec fn lex_lt(a: Seq<u8>, b: Seq<u8>) -> bool {
    exists|n: int| #[trigger] falls_below_at(a, b, n)
}

pub proof fn lemma_lex_irreflexive(a: Seq<u8>)
    ensures
        !lex_lt(a, a),
{
}

pub proof fn lemma_lex_transitive(a: Seq<u8>, b: Seq<u8>, c: Seq<u8>)
    requires
        lex_lt(a, b),
        lex_lt(b, c),
    ensures
        lex_lt(a, c),
{
    let n1 = choose|n: int| falls_below_at(a, b, n);
    let n2 = choose|n: int| falls_below_at(b, c, n);
    if n1 < n2 {
        assert(falls_below_at(a, c, n1));
    } else if n2 < n1 {
        assert(falls_below_at(a, c, n2));
    } else {
        assert(falls_below_at(a, c, n1));
    }
}

/// The order of two byte strings.
pub enum Order {
    Less,
    Equal,
    Greater,
}

/// Compares two byte strings lexicographically.
pub fn compare_bytes(a: &Vec<u8>, b: &Vec<u8>) -> (r: Order)
    ensures
        r is Less <==> lex_lt(a@, b@),
        r is Equal <==> a@ == b@,
        r is Greater <==> lex_lt(b@, a@),
{
    let mut i: usize = 0;
    while i < a.len() && i < b.len()
        invariant
            agree_upto(a@, b@, i as int),
        decreases a.len() - i,
    {
        if a[i] < b[i] {
            assert(falls_below_at(a@, b@, i as int));
            proof {
                lemma_lex_irreflexive(a@);
                if lex_lt(b@, a@) {
                    let n = choose|n: int| falls_below_at(b@, a@, n);
                    assert(n != i);
                }
            }
            return Order::Less;
        } else if a[i] > b[i] {
            assert(falls_below_at(b@, a@, i as int));
            proof {
                if lex_lt(a@, b@) {
                    let n = choose|n: int| falls_below_at(a@, b@, n);
                    assert(n != i);
                }
            }
            return Order::Greater;
        }
        i = i + 1;
    }
    if a.len() < b.len() {
        assert(falls_below_at(a@, b@, i as int));
        proof {
            if lex_lt(b@, a@) {
                let n = choose|n: int| falls_below_at(b@, a@, n);
                assert(n != i);
            }
        }
        Order::Less
    } else if a.len() > b.len() {
        assert(falls_below_at(b@, a@, i as int));
        proof {
            if lex_lt(a@, b@) {
                let n = choose|n: int| falls_below_at(a@, b@, n);
                assert(n != i);
            }
        }
        Order::Greater
    } else {
        assert(a@ =~= b@);
        proof {
            lemma_lex_irreflexive(a@);
        }
        Order::Equal
    }
}

} // verus!
