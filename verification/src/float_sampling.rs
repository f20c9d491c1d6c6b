//! Random magnitudes of floating-point values, as bits of the binary64 format,
//! and random integers, both as often of one scale as of another.

use crate::choices::{float_fits, FloatChoice, FloatValue};
use crate::floats::SIGN_BIT;
use crate::rng::EngineRng;
use vstd::arithmetic::power2::*;
use vstd::prelude::*;

verus! {

/// One.
pub const ONE_BITS: u64 = 0x3ff0_0000_0000_0000;

/// The smallest positive value of full precision.
pub const MIN_POSITIVE_BITS: u64 = 0x0010_0000_0000_0000;

/// The largest finite value.
pub const MAX_FINITE_BITS: u64 = 0x7fef_ffff_ffff_ffff;

/// How many values share one exponent.
pub const BINADE_VALUES: u64 = 0x0010_0000_0000_0000;

/// Whether the value of these bits fits the kind.
pub open spec fn bits_fit(k: FloatChoice, bits: u64) -> bool {
    float_fits(k, FloatValue { bits, order: 0 })
}

/// The bounds within `[lo, hi]` of the positive values with an exponent.
pub open spec fn binade_bounds(lo: u64, hi: u64, exponent: u64) -> (int, int) {
    let first = exponent * BINADE_VALUES;
    let last = first + BINADE_VALUES - 1;
    (
        if lo > first {
            lo as int
        } else {
            first
        },
        if hi < last {
            hi as int
        } else {
            last
        },
    )
}

/// The bounds within `[lo, hi]` of the positive values with an exponent that
/// occurs there.
pub fn binade_within(lo: u64, hi: u64, exponent: u64) -> (r: (u64, u64))
    requires
        lo <= hi < SIGN_BIT,
        lo / BINADE_VALUES <= exponent <= hi / BINADE_VALUES,
    ensures
        (r.0 as int, r.1 as int) == binade_bounds(lo, hi, exponent),
        lo <= r.0 <= r.1 <= hi,
        r.0 / BINADE_VALUES == exponent,
        r.1 / BINADE_VALUES == exponent,
{
    let first: u64 = exponent * BINADE_VALUES;
    let last: u64 = first + (BINADE_VALUES - 1);
    let from: u64 = if lo > first {
        lo
    } else {
        first
    };
    let to: u64 = if hi < last {
        hi
    } else {
        last
    };
    (from, to)
}

/// A positive value of `[lo, hi]`. Each exponent that occurs there is as likely
/// as any other.
pub fn log_uniform_magnitude(lo: u64, hi: u64, rng: &mut EngineRng) -> (r: u64)
    requires
        lo <= hi < SIGN_BIT,
    ensures
        lo <= r <= hi,
        final(rng).handed() == old(rng).handed().push(r as int / BINADE_VALUES as int).push(
            r as int,
        ),
{
    let exponent: u64 = rng.range_inclusive(lo / BINADE_VALUES, hi / BINADE_VALUES);
    let (from, to): (u64, u64) = binade_within(lo, hi, exponent);
    rng.range_inclusive(from, to)
}

/// Whether a number has that many binary digits; zero has none.
pub open spec fn has_digits(v: int, digits: nat) -> bool {
    if digits == 0 {
        v == 0
    } else {
        pow2((digits - 1) as nat) <= v < pow2(digits)
    }
}

/// How many binary digits a number has.
pub fn digits_of(v: u64) -> (r: u32)
    ensures
        r <= 64,
        has_digits(v as int, r as nat),
{
    let mut digits: u32 = 0;
    let mut rest: u64 = v;
    proof {
        lemma_digits_start(v as int);
    }
    while rest > 0
        invariant
            digits <= 64,
            rest * pow2(digits as nat) <= v < (rest + 1) * pow2(digits as nat),
            rest == 0 ==> has_digits(v as int, digits as nat),
        decreases rest,
    {
        proof {
            lemma_digits_step(v as int, rest as int, digits as nat);
            if digits == 64 {
                lemma_more_than_a_word(v, rest);
            }
        }
        rest = rest / 2;
        digits = digits + 1;
    }
    digits
}

proof fn lemma_digits_start(v: int)
    ensures
        v * pow2(0) <= v < (v + 1) * pow2(0),
{
    lemma2_to64();
}

proof fn lemma_digits_step(v: int, rest: int, digits: nat)
    requires
        rest > 0,
        rest * pow2(digits) <= v < (rest + 1) * pow2(digits),
    ensures
        (rest / 2) * pow2(digits + 1) <= v < (rest / 2 + 1) * pow2(digits + 1),
        rest / 2 == 0 ==> has_digits(v, digits + 1),
{
    lemma_pow2_unfold(digits + 1);
    let p = pow2(digits) as int;
    let half = rest / 2;
    assert(half * (2 * p) <= rest * p && (rest + 1) * p <= (half + 1) * (2 * p))
        by (nonlinear_arith)
        requires
            half * 2 <= rest,
            rest + 1 <= (half + 1) * 2,
            p >= 0,
    ;
}

proof fn lemma_more_than_a_word(v: u64, rest: u64)
    requires
        rest > 0,
    ensures
        v < rest * pow2(64),
{
    lemma2_to64();
    assert(rest * pow2(64) >= pow2(64)) by (nonlinear_arith)
        requires
            rest > 0,
    ;
    lemma2_to64_rest();
}

/// The least and the greatest number with that many binary digits.
pub fn numbers_with_digits(digits: u32) -> (r: (u64, u64))
    requires
        digits <= 64,
    ensures
        r.0 <= r.1,
        forall|v: int| #[trigger] has_digits(v, digits as nat) <==> r.0 <= v <= r.1,
{
    if digits == 0 {
        return (0, 0);
    }
    let mut first: u64 = 1;
    let mut i: u32 = 1;
    proof {
        lemma2_to64();
        lemma2_to64_rest();
    }
    while i < digits
        invariant
            1 <= i <= digits <= 64,
            first == pow2((i - 1) as nat),
        decreases digits - i,
    {
        proof {
            lemma_pow2_unfold(i as nat);
            lemma_pow2_strictly_increases(i as nat, 64);
            lemma2_to64_rest();
        }
        first = first * 2;
        i = i + 1;
    }
    proof {
        lemma_pow2_unfold(digits as nat);
        lemma_pow2_at_most(digits as nat);
    }
    (first, first + (first - 1))
}

proof fn lemma_pow2_at_most(digits: nat)
    requires
        digits <= 64,
    ensures
        pow2(digits) <= 0x1_0000_0000_0000_0000,
{
    lemma2_to64();
    lemma2_to64_rest();
    if digits < 64 {
        lemma_pow2_strictly_increases(digits, 64);
    }
}

/// The numbers of `[lo, hi]` with that many binary digits, of which there is at
/// least one.
pub fn digits_within(lo: u64, hi: u64, digits: u32) -> (r: (u64, u64))
    requires
        lo <= hi,
        digits <= 64,
        exists|v: int| lo <= v <= hi && #[trigger] has_digits(v, digits as nat),
    ensures
        lo <= r.0 <= r.1 <= hi,
        forall|v: int|
            r.0 <= v <= r.1 <==> lo <= v <= hi && #[trigger] has_digits(v, digits as nat),
{
    let (first, last): (u64, u64) = numbers_with_digits(digits);
    let from: u64 = if lo > first {
        lo
    } else {
        first
    };
    let to: u64 = if hi < last {
        hi
    } else {
        last
    };
    (from, to)
}

/// Numbers in between have at least as many digits as the least and at most as
/// many as the greatest, and each such count occurs.
proof fn lemma_digits_between(lo: u64, hi: u64, fewest: nat, most: nat, digits: nat)
    requires
        lo <= hi,
        has_digits(lo as int, fewest),
        has_digits(hi as int, most),
        fewest <= digits <= most,
    ensures
        exists|v: int| lo <= v <= hi && #[trigger] has_digits(v, digits),
{
    if digits == fewest {
        assert(has_digits(lo as int, digits));
    } else if digits == most {
        assert(has_digits(hi as int, digits));
    } else {
        let v = pow2((digits - 1) as nat) as int;
        lemma_pow2_strictly_increases((digits - 1) as nat, digits);
        lemma_pow2_strictly_increases((digits - 1) as nat, (most - 1) as nat);
        if fewest > 0 && fewest < digits - 1 {
            lemma_pow2_strictly_increases(fewest, (digits - 1) as nat);
        }
        assert(has_digits(v, digits));
    }
}

/// The smaller number does not have more digits.
proof fn lemma_digits_grow(lo: int, hi: int, fewest: nat, most: nat)
    requires
        lo <= hi,
        has_digits(lo, fewest),
        has_digits(hi, most),
    ensures
        fewest <= most,
{
    if most < fewest {
        if most > 0 && most < fewest - 1 {
            lemma_pow2_strictly_increases(most, (fewest - 1) as nat);
        }
        lemma_pow2_pos((fewest - 1) as nat);
    }
}

/// Whether the next number that is handed out is how many binary digits `v` has,
/// and the one after it is `v`.
pub open spec fn drawn_by_digits(before: Seq<int>, after: Seq<int>, v: int) -> bool {
    exists|digits: nat| #[trigger]
        has_digits(v, digits) && after == before.push(digits as int).push(v)
}

/// An integer of `[lo, hi]`. Each number of binary digits that occurs there is
/// as likely as any other.
pub fn log_uniform_integer(lo: u64, hi: u64, rng: &mut EngineRng) -> (r: u64)
    requires
        lo <= hi,
    ensures
        lo <= r <= hi,
        drawn_by_digits(old(rng).handed(), final(rng).handed(), r as int),
{
    let fewest: u32 = digits_of(lo);
    let most: u32 = digits_of(hi);
    proof {
        lemma_digits_grow(lo as int, hi as int, fewest as nat, most as nat);
    }
    let digits: u32 = rng.range_inclusive(fewest as u64, most as u64) as u32;
    proof {
        lemma_digits_between(lo, hi, fewest as nat, most as nat, digits as nat);
    }
    let (from, to): (u64, u64) = digits_within(lo, hi, digits);
    let r: u64 = rng.range_inclusive(from, to);
    assert(has_digits(r as int, digits as nat));
    r
}

} // verus!
