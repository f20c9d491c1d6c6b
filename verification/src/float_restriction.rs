//! Values of a range in place of those that lie outside of it.

use crate::choices::{float_magnitude, FloatChoice, FLOAT_INFINITY_BITS};
use crate::float_sampling::MAX_FINITE_BITS;
use crate::floats::{is_below, is_finite, is_nan, place, FloatArithmetic, SIGN_BIT};
use vstd::prelude::*;

verus! {

/// The smaller bound of the finite values of a range.
pub open spec fn finite_min(min_bits: u64) -> u64 {
    if place(min_bits) < -MAX_FINITE_BITS {
        (SIGN_BIT + MAX_FINITE_BITS) as u64
    } else {
        min_bits
    }
}

/// The larger bound of the finite values of a range.
pub open spec fn finite_max(max_bits: u64) -> u64 {
    if place(max_bits) > MAX_FINITE_BITS {
        MAX_FINITE_BITS
    } else {
        max_bits
    }
}

/// The nearest value of a range, and the smallest for what is no number.
pub open spec fn brought_between(bits: u64, least: u64, greatest: u64) -> u64 {
    if is_nan(bits) || place(bits) < place(least) {
        least
    } else if place(bits) > place(greatest) {
        greatest
    } else {
        bits
    }
}

/// Brings a value into a range.
pub fn bring_between(bits: u64, least: u64, greatest: u64) -> (r: u64)
    ensures
        r == brought_between(bits, least, greatest),
{
    let magnitude: u64 = bits % SIGN_BIT;
    if magnitude > FLOAT_INFINITY_BITS || is_below(bits, least) {
        least
    } else if is_below(greatest, bits) {
        greatest
    } else {
        bits
    }
}

/// The value itself, unless its magnitude is too small for the kind. Then it is
/// the smallest magnitude, with a sign that keeps it at most `greatest`.
pub open spec fn rerouted(k: FloatChoice, greatest: u64, bits: u64) -> u64 {
    let smallest = float_magnitude(k.smallest_magnitude_bits);
    if 0 < float_magnitude(bits) < smallest {
        if smallest > place(greatest) {
            (SIGN_BIT + smallest) as u64
        } else {
            smallest as u64
        }
    } else {
        bits
    }
}

/// What a value that is meant to lie in the range of a kind comes to.
pub open spec fn restricted(k: FloatChoice, bits: u64) -> u64 {
    let (least, greatest) = (finite_min(k.min_bits), finite_max(k.max_bits));
    brought_between(rerouted(k, greatest, bits), least, greatest)
}

/// The finite bounds of a range.
fn finite_bounds(k: &FloatChoice) -> (r: (u64, u64))
    ensures
        r == (finite_min(k.min_bits), finite_max(k.max_bits)),
{
    let lowest: u64 = SIGN_BIT + MAX_FINITE_BITS;
    let least: u64 = if is_below(k.min_bits, lowest) {
        lowest
    } else {
        k.min_bits
    };
    let greatest: u64 = if is_below(MAX_FINITE_BITS, k.max_bits) {
        MAX_FINITE_BITS
    } else {
        k.max_bits
    };
    (least, greatest)
}

/// What a value that is meant to lie in the range of a kind comes to.
pub fn restrict(k: &FloatChoice, bits: u64) -> (r: u64)
    ensures
        r == restricted(*k, bits),
{
    let (least, greatest): (u64, u64) = finite_bounds(k);
    let smallest: u64 = k.smallest_magnitude_bits % SIGN_BIT;
    let magnitude: u64 = bits % SIGN_BIT;
    let routed: u64 = if 0 < magnitude && magnitude < smallest {
        if is_below(greatest, smallest) {
            SIGN_BIT + smallest
        } else {
            smallest
        }
    } else {
        bits
    };
    bring_between(routed, least, greatest)
}

/// Whether a value of the range of a kind lies as far along it as the digits of
/// another tell.
pub open spec fn redrawn<F: FloatArithmetic>(
    arithmetic: F,
    k: FloatChoice,
    raw: u64,
    r: u64,
) -> bool {
    exists|bits: u64| #[trigger]
        call_ensures(
            F::float_between,
            (
                &arithmetic,
                finite_min(k.min_bits),
                finite_max(k.max_bits),
                (raw % 0x10_0000_0000_0000) as u64,
            ),
            bits,
        ) && r == restricted(k, bits)
}

/// A value of the range of a kind in place of one that need not lie there. The
/// digits of the latter tell how far along the range the former lies, so that
/// different values keep giving different ones.
pub fn float_restrict_and_redraw<F: FloatArithmetic>(
    k: &FloatChoice,
    raw: u64,
    arithmetic: &F,
) -> (r: u64)
    ensures
        redrawn(*arithmetic, *k, raw, r),
{
    let (least, greatest): (u64, u64) = finite_bounds(k);
    let bits: u64 = arithmetic.float_between(least, greatest, raw % 0x10_0000_0000_0000);
    restrict(k, bits)
}

/// Whatever value is restricted, the result is a finite one of the range.
pub proof fn lemma_restriction_stays_in_range(k: FloatChoice, bits: u64)
    requires
        !is_nan(k.min_bits),
        !is_nan(k.max_bits),
        place(finite_min(k.min_bits)) <= place(finite_max(k.max_bits)),
    ensures
        place(k.min_bits) <= place(restricted(k, bits)) <= place(k.max_bits),
        is_finite(restricted(k, bits)),
{
}

/// A value of the range gives one that is zero or no smaller than the kind
/// allows, where the range holds the smallest magnitude with either sign.
pub proof fn lemma_restriction_avoids_small_magnitudes(k: FloatChoice, bits: u64)
    requires
        place(finite_min(k.min_bits)) <= place(bits) <= place(finite_max(k.max_bits)),
        ({
            let smallest = float_magnitude(k.smallest_magnitude_bits);
            &&& place(finite_min(k.min_bits)) <= smallest <= place(finite_max(k.max_bits))
                || smallest > place(finite_max(k.max_bits)) && place(finite_min(k.min_bits))
                <= -smallest <= place(finite_max(k.max_bits))
            &&& smallest <= MAX_FINITE_BITS
        }),
        !is_nan(bits),
    ensures
        float_magnitude(restricted(k, bits)) == 0 || float_magnitude(restricted(k, bits))
            >= float_magnitude(k.smallest_magnitude_bits),
{
}

} // verus!
