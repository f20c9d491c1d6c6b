//! Rounding of binary64 values to the binary32 format, to the nearest value
//! and, of two that are equally near, to the one whose last bit is zero.

use crate::choices::FLOAT_INFINITY_BITS;
use crate::floats::is_finite;
use crate::floats::is_nan;
use crate::floats::is_single;
use crate::floats::is_single_number;
use crate::floats::lemma_scaled_lower;
use crate::floats::lemma_widened_bounds;
use crate::floats::lemma_widening_increases;
use crate::floats::place;
use crate::floats::scaled;
use crate::floats::widen;
use crate::floats::widen_magnitude;
use crate::floats::widened;
use crate::floats::widened_magnitude;
use crate::floats::SIGN_BIT;
use crate::floats::SINGLE_INFINITY_BITS;
use crate::floats::SINGLE_MAX_BITS;
use crate::floats::SINGLE_SIGN_BIT;
use vstd::prelude::*;

verus! {

/// Half of the smallest positive binary32 value, as bits in the binary64
/// format.
pub const HALF_OF_SMALLEST_BITS: u64 = 0x3690_0000_0000_0000;

/// The largest finite binary32 magnitude, as bits.
pub const SINGLE_LARGEST: u32 = 0x7f7f_ffff;

/// The binary64 magnitude that is halfway between a finite binary32 magnitude
/// and the next. Beyond the largest one the next is taken to be the power of
/// two that follows.
pub open spec fn halfway(n: int) -> int {
    if n == 0 {
        HALF_OF_SMALLEST_BITS as int
    } else if n < SINGLE_LARGEST {
        (widened_magnitude(n) + widened_magnitude(n + 1)) / 2
    } else {
        widened_magnitude(n) + 0x1000_0000
    }
}

/// Whether a binary64 magnitude is so near to a binary32 magnitude that it is
/// not rounded up past it.
pub open spec fn stays_below(m: int, n: int) -> bool {
    m < halfway(n) || m == halfway(n) && n % 2 == 0
}

/// Whether a binary64 magnitude is rounded to a binary32 magnitude.
pub open spec fn rounds_to(m: int, n: int) -> bool {
    &&& 0 <= n <= SINGLE_INFINITY_BITS
    &&& n > 0 ==> !stays_below(m, n - 1)
    &&& n < SINGLE_INFINITY_BITS ==> stays_below(m, n)
}

/// Widened magnitudes are even.
proof fn lemma_scaled_is_even(significand: int, exponent: int)
    ensures
        scaled(significand, exponent) % 2 == 0,
    decreases 0x100_0000 - significand,
{
    if significand >= 0x80_0000 || significand <= 0 {
    } else {
        lemma_scaled_is_even(2 * significand, exponent - 1);
    }
}

proof fn lemma_widened_is_even(n: int)
    requires
        0 <= n <= SINGLE_INFINITY_BITS,
    ensures
        widened_magnitude(n) % 2 == 0,
{
    let exponent = n / 0x80_0000;
    let fraction = n % 0x80_0000;
    if n == 0 {
    } else if exponent == 0 {
        lemma_scaled_is_even(fraction, 897);
    } else if exponent < 255 {
        lemma_scaled_is_even(fraction + 0x80_0000, exponent + 896);
    }
}

/// What is halfway lies between the two magnitudes.
proof fn lemma_halfway_is_between(n: int)
    requires
        0 <= n < SINGLE_INFINITY_BITS,
    ensures
        widened_magnitude(n) < halfway(n) < widened_magnitude(n + 1),
{
    lemma_widened_bounds(n);
    lemma_widened_bounds(n + 1);
    lemma_widening_increases(n, n + 1);
    lemma_widened_is_even(n);
    lemma_widened_is_even(n + 1);
    if n == 0 {
        vstd::arithmetic::power2::lemma2_to64();
        lemma_scaled_lower(1, 897, 0);
    }
}

/// What is halfway to the next is more for larger magnitudes.
proof fn lemma_halfway_increases(a: int, b: int)
    requires
        0 <= a < b < SINGLE_INFINITY_BITS,
    ensures
        halfway(a) < halfway(b),
{
    lemma_halfway_is_between(a);
    lemma_halfway_is_between(b);
    if a + 1 < b {
        lemma_widening_increases(a + 1, b);
    }
}

/// A magnitude between two that are widened is rounded to one between them.
pub proof fn lemma_rounding_stays_between(m: int, n: int, a: int, b: int)
    requires
        rounds_to(m, n),
        0 <= a <= b <= SINGLE_INFINITY_BITS,
        widened_magnitude(a) <= m <= widened_magnitude(b),
    ensures
        a <= n <= b,
{
    if n < a {
        lemma_halfway_is_between(a - 1);
        if n < a - 1 {
            lemma_halfway_increases(n, a - 1);
        }
    }
    if n > b {
        lemma_halfway_is_between(b);
        if b < n - 1 {
            lemma_halfway_increases(b, n - 1);
        }
    }
}

/// A magnitude is rounded to one magnitude only.
pub proof fn lemma_rounding_is_unique(m: int, n: int, k: int)
    requires
        rounds_to(m, n),
        rounds_to(m, k),
    ensures
        n == k,
{
    if n < k {
        if n < k - 1 {
            lemma_halfway_increases(n, k - 1);
        }
    }
    if k < n {
        if k < n - 1 {
            lemma_halfway_increases(k, n - 1);
        }
    }
}

/// What is halfway to the next magnitude.
fn halfway_of(n: u32) -> (r: u64)
    requires
        n < SINGLE_INFINITY_BITS,
    ensures
        r == halfway(n as int),
{
    proof {
        lemma_widened_bounds(n as int);
        lemma_widened_bounds(n + 1);
    }
    if n == 0 {
        HALF_OF_SMALLEST_BITS
    } else if n < SINGLE_LARGEST {
        (widen_magnitude(n) + widen_magnitude(n + 1)) / 2
    } else {
        widen_magnitude(n) + 0x1000_0000
    }
}

/// Rounds a magnitude.
fn round_magnitude(m: u64) -> (r: u32)
    ensures
        rounds_to(m as int, r as int),
{
    let mut low: u32 = 0;
    let mut high: u32 = SINGLE_INFINITY_BITS;
    while low < high
        invariant
            low <= high <= SINGLE_INFINITY_BITS,
            low > 0 ==> !stays_below(m as int, low - 1),
            high < SINGLE_INFINITY_BITS ==> stays_below(m as int, high as int),
        decreases high - low,
    {
        let mid: u32 = low + (high - low) / 2;
        let half: u64 = halfway_of(mid);
        if m < half || m == half && mid % 2 == 0 {
            high = mid;
        } else {
            low = mid + 1;
        }
    }
    low
}

/// Whether a value is rounded to a binary32 value.
pub open spec fn value_rounds_to(bits: u64, single: u32) -> bool {
    &&& bits >= SIGN_BIT <==> single >= SINGLE_SIGN_BIT
    &&& rounds_to(bits as int % 0x8000_0000_0000_0000, single as int % 0x8000_0000)
}

/// The binary32 value that a value is rounded to.
pub open spec fn nearest(bits: u64) -> u32 {
    choose|single: u32| value_rounds_to(bits, single)
}

/// Rounds a value that is not NaN to the binary32 format.
pub fn nearest_single(bits: u64) -> (r: u32)
    ensures
        r == nearest(bits),
        value_rounds_to(bits, r),
        is_single_number(r),
{
    let n: u32 = round_magnitude(bits % SIGN_BIT);
    let single: u32 = if bits >= SIGN_BIT {
        SINGLE_SIGN_BIT + n
    } else {
        n
    };
    assert(value_rounds_to(bits, single));
    proof {
        lemma_rounding_is_unique(
            bits as int % 0x8000_0000_0000_0000,
            single as int % 0x8000_0000,
            nearest(bits) as int % 0x8000_0000,
        );
    }
    single
}

/// The value in the binary64 format that a value is rounded to.
pub open spec fn rounded(bits: u64) -> u64 {
    widened(nearest(bits))
}

/// Rounds a value that is not NaN to the binary32 format, and widens it again.
pub fn round_to_single(bits: u64) -> (r: u64)
    ensures
        r == rounded(bits),
        is_single(r),
        !is_nan(r),
{
    let single: u32 = nearest_single(bits);
    proof {
        lemma_widened_bounds(single as int % 0x8000_0000);
    }
    widen(single)
}

/// Widening keeps the order of magnitudes.
proof fn lemma_widening_keeps_order(m: int, n: int)
    requires
        0 <= m <= SINGLE_INFINITY_BITS,
        0 <= n <= SINGLE_INFINITY_BITS,
    ensures
        m <= n <==> widened_magnitude(m) <= widened_magnitude(n),
{
    if m < n {
        lemma_widening_increases(m, n);
    }
    if n < m {
        lemma_widening_increases(n, m);
    }
}

/// Some magnitude up to `k` is the one that a magnitude is rounded to.
proof fn lemma_some_magnitude(m: int, k: int) -> (n: int)
    requires
        0 <= k <= SINGLE_INFINITY_BITS,
        k < SINGLE_INFINITY_BITS ==> stays_below(m, k),
    ensures
        rounds_to(m, n),
    decreases k,
{
    if k > 0 && stays_below(m, k - 1) {
        lemma_some_magnitude(m, k - 1)
    } else {
        k
    }
}

/// The place of a binary32 value once it is widened.
proof fn lemma_widened_place(single: u32)
    requires
        is_single_number(single),
    ensures
        0 <= widened_magnitude(single as int % 0x8000_0000),
        place(widened(single)) == if single >= SINGLE_SIGN_BIT {
            -widened_magnitude(single as int % 0x8000_0000)
        } else {
            widened_magnitude(single as int % 0x8000_0000)
        },
        widened(single) >= SIGN_BIT <==> single >= SINGLE_SIGN_BIT,
{
    lemma_widened_bounds(single as int % 0x8000_0000);
}

/// What a value is rounded to has the sign of the value, and the magnitude that
/// its magnitude is rounded to.
proof fn lemma_rounded_parts(bits: u64) -> (n: int)
    ensures
        exists|single: u32| value_rounds_to(bits, single),
        rounds_to(bits as int % 0x8000_0000_0000_0000, n),
        place(rounded(bits)) == if bits >= SIGN_BIT {
            -widened_magnitude(n)
        } else {
            widened_magnitude(n)
        },
{
    let n = lemma_some_magnitude(
        bits as int % 0x8000_0000_0000_0000,
        SINGLE_INFINITY_BITS as int,
    );
    let witness: u32 = if bits >= SIGN_BIT {
        (SINGLE_SIGN_BIT + n) as u32
    } else {
        n as u32
    };
    assert(witness as int % 0x8000_0000 == n);
    assert(value_rounds_to(bits, witness));
    let s = nearest(bits);
    lemma_widened_place(s);
    s as int % 0x8000_0000
}

/// What a value is rounded to is a binary32 value.
pub proof fn lemma_rounded_is_single(bits: u64)
    ensures
        is_single(rounded(bits)),
        !is_nan(rounded(bits)),
{
    let n = lemma_rounded_parts(bits);
    let s = nearest(bits);
    lemma_widened_bounds(s as int % 0x8000_0000);
    assert(is_single_number(s) && widened(s) == rounded(bits));
}

/// The magnitude of a binary32 value, and its sign.
proof fn lemma_single_parts(bits: u64) -> (n: int)
    requires
        is_single(bits),
    ensures
        0 <= n <= SINGLE_INFINITY_BITS,
        0 <= widened_magnitude(n),
        place(bits) == if bits >= SIGN_BIT {
            -widened_magnitude(n)
        } else {
            widened_magnitude(n)
        },
{
    let s = choose|single: u32| is_single_number(single) && #[trigger] widened(single) == bits;
    lemma_widened_place(s);
    s as int % 0x8000_0000
}

/// The largest finite binary32 value is one, with either sign.
pub proof fn lemma_largest_is_single()
    ensures
        is_single(SINGLE_MAX_BITS),
        is_single((SIGN_BIT + SINGLE_MAX_BITS) as u64),
        widened_magnitude(SINGLE_LARGEST as int) == SINGLE_MAX_BITS,
{
    assert(widened_magnitude(SINGLE_LARGEST as int) == SINGLE_MAX_BITS);
    assert(widened(SINGLE_LARGEST) == SINGLE_MAX_BITS);
    let negative: u32 = (SINGLE_SIGN_BIT + SINGLE_LARGEST) as u32;
    assert(negative as int % 0x8000_0000 == SINGLE_LARGEST);
    assert(widened(negative) == (SIGN_BIT + SINGLE_MAX_BITS) as u64);
}

/// Finite binary32 values are no larger than the largest one.
pub proof fn lemma_finite_singles_are_bounded(bits: u64)
    requires
        is_single(bits),
        is_finite(bits),
    ensures
        -SINGLE_MAX_BITS <= place(bits) <= SINGLE_MAX_BITS,
{
    lemma_largest_is_single();
    let n = lemma_single_parts(bits);
    lemma_widening_keeps_order(n, SINGLE_LARGEST as int);
    if n > SINGLE_LARGEST {
        assert(n == SINGLE_INFINITY_BITS);
        assert(widened_magnitude(n) == FLOAT_INFINITY_BITS);
    }
}

/// What is rounded lies between the same binary32 values as before.
pub proof fn lemma_rounded_stays_between(bits: u64, low: u64, high: u64)
    requires
        is_single(low),
        is_single(high),
        place(low) <= place(bits) <= place(high),
    ensures
        place(low) <= place(rounded(bits)) <= place(high),
{
    let m = bits as int % 0x8000_0000_0000_0000;
    let n = lemma_rounded_parts(bits);
    let a = lemma_single_parts(low);
    let b = lemma_single_parts(high);
    lemma_widened_bounds(n);
    lemma_widening_keeps_order(a, b);
    lemma_widening_keeps_order(a, n);
    lemma_widening_keeps_order(n, b);
    lemma_widening_keeps_order(b, a);
    lemma_widening_keeps_order(n, a);
    lemma_widening_keeps_order(b, n);
    if bits < SIGN_BIT {
        if low < SIGN_BIT {
            lemma_rounding_stays_between(m, n, a, b);
        } else {
            lemma_rounding_stays_between(m, n, 0, b);
        }
    } else if m == 0 {
        lemma_rounding_stays_between(m, n, 0, 0);
    } else if high >= SIGN_BIT {
        lemma_rounding_stays_between(m, n, b, a);
    } else {
        lemma_rounding_stays_between(m, n, 0, a);
    }
}

/// A binary32 value is rounded to itself.
pub proof fn lemma_singles_stay(bits: u64)
    requires
        is_single(bits),
    ensures
        place(rounded(bits)) == place(bits),
{
    lemma_rounded_stays_between(bits, bits, bits);
}

} // verus!
