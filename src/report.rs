use vstd::prelude::*;

verus! {

/// `count` as a share of `total`, in hundredths of a percent, rounded half
/// up; 0 when `total` is 0.
pub open spec fn percent_of(count: nat, total: nat) -> nat {
    if total == 0 {
        0
    } else {
        (count * 20000 + total) / (2 * total)
    }
}

/// The share of `count` in `total` in hundredths of a percent: 2500 means
/// 25.00%. An empty total gives 0 rather than a division by zero.
pub fn percent_hundredths(count: u64, total: u64) -> (r: u64)
    requires
        count <= total,
    ensures
        r == percent_of(count as nat, total as nat),
        r <= 10000,
{
    if total == 0 {
        0
    } else {
        let c = count as u128;
        let t = total as u128;
        assert(c * 20000 + t <= t * 20001) by (nonlinear_arith)
            requires
                c <= t,
        ;
        assert((c * 20000 + t) / (2 * t) <= 10000) by (nonlinear_arith)
            requires
                c <= t,
                t > 0,
        ;
        ((c * 20000 + t) / (2 * t)) as u64
    }
}

/// What replaces the final extension of the input's name in the report's.
pub open spec fn results_suffix() -> Seq<u8> {
    seq![95u8, 114, 117, 115, 116, 95, 114, 101, 115, 117, 108, 116, 115, 46, 116, 120, 116]
}

/// The bytes `_rust_results.txt`.
fn suffix_bytes() -> (r: Vec<u8>)
    ensures
        r@ == results_suffix(),
{
    let r: Vec<u8> = vec![95u8, 114, 117, 115, 116, 95, 114, 101, 115, 117, 108, 116, 115, 46, 116, 120, 116];
    assert(r@ =~= results_suffix());
    r
}

/// The name of the report written for input `name`: the text after its last
/// '.' is replaced by `_rust_results.txt` (that dot included); a name without a
/// dot gets the suffix appended.
pub fn report_file_name(name: &[u8]) -> (r: Vec<u8>)
    requires
        name@.len() + 17 <= usize::MAX,
    ensures
        (forall|q: int| 0 <= q < name@.len() ==> name@[q] != 46) ==> r@ == name@ + results_suffix(),
        forall|p: int|
            0 <= p < name@.len() && name@[p] == 46 && (forall|q: int| p < q < name@.len() ==> name@[q] != 46)
            ==> r@ == name@.subrange(0, p) + results_suffix(),
{
    let mut end: usize = name.len();
    let mut k: usize = name.len();
    while k > 0
        invariant_except_break
            end == name@.len(),
        invariant
            k <= name@.len(),
            forall|q: int| k <= q < name@.len() ==> name@[q] != 46,
        ensures
            end == name@.len() ==> forall|q: int| 0 <= q < name@.len() ==> name@[q] != 46,
            end < name@.len() ==> name@[end as int] == 46 && forall|q: int|
                end < q < name@.len() ==> name@[q] != 46,
            end <= name@.len(),
        decreases k,
    {
        if name[k - 1] == 46 {
            end = k - 1;
            break;
        }
        k = k - 1;
    }
    let mut r: Vec<u8> = Vec::new();
    let mut i: usize = 0;
    while i < end
        invariant
            end <= name@.len(),
            i <= end,
            r@ == name@.subrange(0, i as int),
        decreases end - i,
    {
        r.push(name[i]);
        i = i + 1;
    }
    let suffix = suffix_bytes();
    let mut j: usize = 0;
    while j < suffix.len()
        invariant
            end <= name@.len(),
            j <= suffix@.len(),
            suffix@ == results_suffix(),
            r@ == name@.subrange(0, end as int) + suffix@.subrange(0, j as int),
        decreases suffix@.len() - j,
    {
        r.push(suffix[j]);
        j = j + 1;
    }
    assert(suffix@.subrange(0, 17) =~= suffix@);
    proof {
        assert forall|p: int|
            0 <= p < name@.len() && name@[p] == 46 && (forall|q: int| p < q < name@.len() ==> name@[q] != 46)
            implies end == p by {
            if end == name@.len() {
                assert(name@[p] != 46);
            } else if end < p {
                assert(name@[p] != 46);
            } else if end > p {
                assert(name@[end as int] != 46);
            }
        }
    }
    assert(name@.subrange(0, name@.len() as int) =~= name@);
    r
}

} // verus!
