//! Decimal notation.
use crate::bignum::BigInt;
use crate::bignum::BigUint;
use vstd::prelude::*;
use vstd::string::StringExecFns;

verus! {

/// The character for a digit.
pub open spec fn digit(d: nat) -> char {
    if d == 0 {
        '0'
    } else if d == 1 {
        '1'
    } else if d == 2 {
        '2'
    } else if d == 3 {
        '3'
    } else if d == 4 {
        '4'
    } else if d == 5 {
        '5'
    } else if d == 6 {
        '6'
    } else if d == 7 {
        '7'
    } else if d == 8 {
        '8'
    } else {
        '9'
    }
}

/// `n` in decimal notation.
pub open spec fn decimal(n: nat) -> Seq<char>
    decreases n,
{
    if n < 10 {
        seq![digit(n)]
    } else {
        decimal(n / 10).push(digit(n % 10))
    }
}

/// An integer in decimal notation.
pub open spec fn signed_decimal(n: int) -> Seq<char> {
    if n < 0 {
        seq!['-'] + decimal((-n) as nat)
    } else {
        decimal(n as nat)
    }
}

fn digit_text(d: u32) -> (r: &'static str)
    requires
        d < 10,
    ensures
        r@ == seq![digit(d as nat)],
{
    proof {
        reveal_strlit("0");
        reveal_strlit("1");
        reveal_strlit("2");
        reveal_strlit("3");
        reveal_strlit("4");
        reveal_strlit("5");
        reveal_strlit("6");
        reveal_strlit("7");
        reveal_strlit("8");
        reveal_strlit("9");
    }
    let r = if d == 0 {
        "0"
    } else if d == 1 {
        "1"
    } else if d == 2 {
        "2"
    } else if d == 3 {
        "3"
    } else if d == 4 {
        "4"
    } else if d == 5 {
        "5"
    } else if d == 6 {
        "6"
    } else if d == 7 {
        "7"
    } else if d == 8 {
        "8"
    } else {
        "9"
    };
    assert(r@ =~= seq![digit(d as nat)]);
    r
}

/// Appends a natural number in decimal notation.
pub fn append_natural(out: &mut String, n: &BigUint)
    ensures
        final(out)@ == old(out)@ + decimal(n@),
    decreases n@,
{
    let (rest, last) = n.divide_small(10);
    if !rest.is_zero() {
        append_natural(out, &rest);
        out.append(digit_text(last));
        assert(out@ =~= old(out)@ + decimal(n@));
    } else {
        out.append(digit_text(last));
        assert(out@ =~= old(out)@ + decimal(n@));
    }
}

/// Appends a number in decimal notation.
pub fn append_usize(out: &mut String, n: usize)
    ensures
        final(out)@ == old(out)@ + decimal(n as nat),
{
    append_natural(out, &BigUint::from_u128(n as u128));
}

/// Appends an integer in decimal notation.
pub fn append_integer(out: &mut String, n: &BigInt)
    ensures
        final(out)@ == old(out)@ + signed_decimal(n@),
{
    if n.is_negative() {
        proof {
            reveal_strlit("-");
        }
        out.append("-");
        assert("-"@ =~= seq!['-']);
        append_natural(out, &n.magnitude());
        assert(out@ =~= old(out)@ + signed_decimal(n@));
    } else {
        append_natural(out, &n.magnitude());
    }
}

} // verus!
