use vstd::prelude::*;

verus! {

/// The decimal digit `d`.
pub open spec fn digit(d: nat) -> char {
    ((d % 10) + 48) as char
}

/// The decimal representation of `n`, without leading zeros.
pub open spec fn decimal(n: nat) -> Seq<char>
    decreases n,
{
    if n < 10 {
        seq![digit(n)]
    } else {
        decimal(n / 10).push(digit(n % 10))
    }
}

/// The decimal representation of `n` with a comma between each group of
/// three digits, counted from the right.
pub open spec fn grouped(n: nat) -> Seq<char>
    decreases n,
{
    if n < 1000 {
        decimal(n)
    } else {
        grouped(n / 1000) + seq![',', digit(n % 1000 / 100), digit(n % 100 / 10), digit(n % 10)]
    }
}

fn digit_char(d: u64) -> (r: char)
    requires
        d < 10,
    ensures
        r == digit(d as nat),
{
    ((d as u8) + 48) as char
}

/// The grouped decimal digits of `n`.
fn grouped_chars(n: u64) -> (r: Vec<char>)
    ensures
        r@ == grouped(n as nat),
    decreases n,
{
    if n < 1000 {
        let mut v: Vec<char> = Vec::new();
        if n >= 100 {
            v.push(digit_char(n / 100));
        }
        if n >= 10 {
            v.push(digit_char(n / 10 % 10));
        }
        v.push(digit_char(n % 10));
        proof {
            let m = n as nat;
            if m >= 100 {
                assert(m / 10 / 10 == m / 100);
                assert(decimal(m / 100) == seq![digit(m / 100)]);
                assert(decimal(m / 10) == decimal(m / 100).push(digit((m / 10) % 10)));
                assert(decimal(m) == decimal(m / 10).push(digit(m % 10)));
            } else if m >= 10 {
                assert(decimal(m / 10) == seq![digit(m / 10)]);
                assert(decimal(m) == decimal(m / 10).push(digit(m % 10)));
            }
        }
        assert(v@ =~= grouped(n as nat));
        v
    } else {
        let mut v = grouped_chars(n / 1000);
        v.push(',');
        v.push(digit_char(n % 1000 / 100));
        v.push(digit_char(n % 100 / 10));
        v.push(digit_char(n % 10));
        assert(v@ =~= grouped(n as nat));
        v
    }
}

/// Relies on `String::from_iter` over `char`s: the string holds exactly
/// those characters, in order.
#[verifier::external_body]
fn string_from_chars(v: Vec<char>) -> (r: String)
    ensures
        r@ == v@,
{
    String::from_iter(v)
}

/// `n` in decimal with thousands separated by commas: 1234567 gives
/// "1,234,567", 42 gives "42".
pub fn format_number(n: u64) -> (r: String)
    ensures
        r@ == grouped(n as nat),
{
    string_from_chars(grouped_chars(n))
}

} // verus!
