//! Families of floating-point magnitudes that can be counted through: all
//! magnitudes of a format, the integers, the numbers halfway between integers,
//! and the quotients of integers. Magnitudes are bits of the binary64 format.

use crate::choices::FLOAT_INFINITY_BITS;
use crate::floats::{
    lemma_widened_bounds, lemma_widening_increases, widen_magnitude, widened_magnitude,
    SINGLE_INFINITY_BITS,
};
use vstd::arithmetic::power2::*;
use vstd::prelude::*;

verus! {

/// The format that values are drawn for.
#[derive(Clone, Copy, Debug, PartialEq, Eq, Structural)]
pub enum FloatWidth {
    /// The binary32 format.
    F32,
    /// The binary64 format.
    F64,
}

/// The magnitude at a place among all magnitudes of a format, with zero at
/// zero.
pub open spec fn at_width(width: FloatWidth, index: int) -> int {
    match width {
        FloatWidth::F32 => widened_magnitude(index),
        FloatWidth::F64 => index,
    }
}

/// The place of infinity among all magnitudes of a format.
pub open spec fn infinity_index(width: FloatWidth) -> int {
    match width {
        FloatWidth::F32 => SINGLE_INFINITY_BITS as int,
        FloatWidth::F64 => FLOAT_INFINITY_BITS as int,
    }
}

/// Later places hold larger magnitudes.
pub proof fn lemma_places_increase(width: FloatWidth, i: int, j: int)
    requires
        0 <= i < j <= infinity_index(width),
    ensures
        at_width(width, i) < at_width(width, j),
{
    if width == FloatWidth::F32 {
        lemma_widening_increases(i, j);
    }
}

/// Magnitudes lie between zero and infinity, which only the outermost places
/// hold.
pub proof fn lemma_place_bounds(width: FloatWidth, i: int)
    requires
        0 <= i <= infinity_index(width),
    ensures
        0 <= at_width(width, i) <= FLOAT_INFINITY_BITS,
        i < infinity_index(width) ==> at_width(width, i) < FLOAT_INFINITY_BITS,
        i > 0 ==> at_width(width, i) > 0,
        at_width(width, 0) == 0,
        at_width(width, infinity_index(width)) == FLOAT_INFINITY_BITS,
{
    if width == FloatWidth::F32 {
        lemma_widened_bounds(i);
    }
}

/// The magnitude at a place.
pub fn value_at(width: FloatWidth, index: u64) -> (r: u64)
    requires
        index <= infinity_index(width),
    ensures
        r == at_width(width, index as int),
{
    match width {
        FloatWidth::F32 => widen_magnitude(index as u32),
        FloatWidth::F64 => index,
    }
}

/// The first place with at least the given magnitude.
fn first_index_at_least(width: FloatWidth, bits: u64) -> (r: u64)
    requires
        bits <= FLOAT_INFINITY_BITS,
    ensures
        r <= infinity_index(width),
        forall|i: int|
            0 <= i <= infinity_index(width) ==> (#[trigger] at_width(width, i) >= bits <==> i >= r),
{
    let end: u64 = match width {
        FloatWidth::F32 => SINGLE_INFINITY_BITS as u64,
        FloatWidth::F64 => FLOAT_INFINITY_BITS,
    };
    let mut low: u64 = 0;
    let mut high: u64 = end;
    proof {
        lemma_place_bounds(width, end as int);
    }
    while low < high
        invariant
            low <= high <= end == infinity_index(width),
            at_width(width, high as int) >= bits,
            low > 0 ==> at_width(width, low - 1) < bits,
        decreases high - low,
    {
        let middle: u64 = low + (high - low) / 2;
        if value_at(width, middle) >= bits {
            high = middle;
        } else {
            low = middle + 1;
        }
    }
    proof {
        assert forall|i: int| 0 <= i <= infinity_index(width) implies (#[trigger] at_width(width, i)
            >= bits <==> i >= low) by {
            if i > low {
                lemma_places_increase(width, low as int, i);
            }
            if i < low - 1 {
                lemma_places_increase(width, i, low - 1);
            }
        }
    }
    low
}

/// The first and the last place with a magnitude of `[lo, hi]`. The first comes
/// after the last where there is none.
pub fn indices_within(width: FloatWidth, lo: u64, hi: u64) -> (r: (u64, u64))
    requires
        lo <= FLOAT_INFINITY_BITS,
        hi < FLOAT_INFINITY_BITS,
    ensures
        r.0 <= infinity_index(width),
        r.1 < infinity_index(width),
        forall|i: int|
            0 <= i <= infinity_index(width) ==> (lo <= #[trigger] at_width(width, i) <= hi
                <==> r.0 <= i <= r.1),
{
    let from: u64 = first_index_at_least(width, lo);
    let past: u64 = first_index_at_least(width, hi + 1);
    proof {
        lemma_place_bounds(width, 0);
        assert(at_width(width, 0) < hi + 1);
    }
    (from, past - 1)
}

/// The magnitude of `significand` times two to the power of `exponent` less
/// 1075, for a significand of at most fifty-three bits, which need not be
/// normalised.
pub open spec fn normalised(significand: int, exponent: int) -> int
    decreases 0x20_0000_0000_0000 - significand,
{
    if significand >= 0x10_0000_0000_0000 || significand <= 0 {
        exponent * 0x10_0000_0000_0000 + (significand - 0x10_0000_0000_0000)
    } else {
        normalised(2 * significand, exponent - 1)
    }
}

proof fn lemma_normalised_upper(significand: int, exponent: int)
    requires
        0 < significand < 0x20_0000_0000_0000,
    ensures
        significand < 0x10_0000_0000_0000 ==> normalised(significand, exponent) < exponent
            * 0x10_0000_0000_0000,
        normalised(significand, exponent) < (exponent + 1) * 0x10_0000_0000_0000,
    decreases 0x20_0000_0000_0000 - significand,
{
    if significand < 0x10_0000_0000_0000 {
        lemma_normalised_upper(2 * significand, exponent - 1);
    }
}

proof fn lemma_normalised_increases(f: int, g: int, exponent: int)
    requires
        0 < f < g <= 0x20_0000_0000_0000,
    ensures
        normalised(f, exponent) < normalised(g, exponent),
    decreases 0x20_0000_0000_0000 - f,
{
    if f >= 0x10_0000_0000_0000 {
    } else if g >= 0x10_0000_0000_0000 {
        lemma_normalised_upper(f, exponent);
    } else {
        lemma_normalised_increases(2 * f, 2 * g, exponent - 1);
    }
}

/// How little a significand may stand for.
proof fn lemma_normalised_lower(significand: int, exponent: int, doublings: nat)
    requires
        0 < significand,
        doublings <= 52,
        significand >= pow2(doublings),
    ensures
        normalised(significand, exponent) >= (exponent - 52 + doublings) * 0x10_0000_0000_0000,
    decreases 0x20_0000_0000_0000 - significand,
{
    lemma2_to64();
    lemma2_to64_rest();
    if significand < 0x10_0000_0000_0000 {
        if doublings == 52 {
            assert(false);
        }
        lemma_pow2_unfold(doublings + 1);
        lemma_normalised_lower(2 * significand, exponent - 1, doublings + 1);
    }
}

/// The magnitude of `n`, or of `n` and a half.
pub open spec fn numeral(half: bool, n: int) -> int {
    if half {
        normalised(2 * n + 1, 1074)
    } else {
        normalised(n, 1075)
    }
}

/// Whether `n`, or `n` and a half, has a magnitude that holds it exactly.
pub open spec fn is_numeral(half: bool, n: int) -> bool {
    if half {
        0 <= n < 0x10_0000_0000_0000
    } else {
        1 <= n <= 0x20_0000_0000_0000
    }
}

/// Larger numbers have larger magnitudes.
pub proof fn lemma_numerals_increase(half: bool, m: int, n: int)
    requires
        is_numeral(half, m),
        is_numeral(half, n),
        m < n,
    ensures
        numeral(half, m) < numeral(half, n),
{
    if half {
        lemma_normalised_increases(2 * m + 1, 2 * n + 1, 1074);
    } else {
        lemma_normalised_increases(m, n, 1075);
    }
}

/// Numerals are finite.
pub proof fn lemma_numeral_bounds(half: bool, n: int)
    requires
        is_numeral(half, n),
    ensures
        0 < numeral(half, n) < FLOAT_INFINITY_BITS,
{
    lemma2_to64();
    if half {
        lemma_normalised_lower(2 * n + 1, 1074, 0);
        lemma_normalised_upper(2 * n + 1, 1074);
    } else {
        lemma_normalised_lower(n, 1075, 0);
        if n < 0x20_0000_0000_0000 {
            lemma_normalised_upper(n, 1075);
        }
    }
}

/// The magnitude of `n`, or of `n` and a half.
pub fn numeral_bits(half: bool, n: u64) -> (r: u64)
    requires
        is_numeral(half, n as int),
    ensures
        r == numeral(half, n as int),
        0 < r < FLOAT_INFINITY_BITS,
{
    proof {
        lemma_numeral_bounds(half, n as int);
    }
    let mut significand: u64 = if half {
        2 * n + 1
    } else {
        n
    };
    let mut exponent: u64 = if half {
        1074
    } else {
        1075
    };
    let ghost end = numeral(half, n as int);
    while significand < 0x10_0000_0000_0000
        invariant
            0 < significand <= 0x20_0000_0000_0000,
            exponent <= 1075,
            normalised(significand as int, exponent as int) == end,
            end > 0,
        decreases 0x20_0000_0000_0000 - significand,
    {
        proof {
            lemma_normalised_upper(significand as int, exponent as int);
        }
        significand = significand * 2;
        exponent = exponent - 1;
    }
    exponent * 0x10_0000_0000_0000 + (significand - 0x10_0000_0000_0000)
}

/// The first of the numerals from `first` to `last` with at least the given
/// magnitude; one past `last` where there is none.
fn first_numeral_at_least(half: bool, first: u64, last: u64, bits: u64) -> (r: u64)
    requires
        is_numeral(half, first as int),
        is_numeral(half, last as int),
        first <= last,
    ensures
        first <= r <= last + 1,
        forall|n: int|
            first <= n <= last ==> (#[trigger] numeral(half, n) >= bits <==> n >= r),
{
    let mut low: u64 = first;
    let mut high: u64 = last + 1;
    while low < high
        invariant
            first <= low <= high <= last + 1,
            is_numeral(half, first as int),
            is_numeral(half, last as int),
            last < u64::MAX,
            high <= last ==> numeral(half, high as int) >= bits,
            low > first ==> numeral(half, low - 1) < bits,
        decreases high - low,
    {
        let middle: u64 = low + (high - low) / 2;
        if numeral_bits(half, middle) >= bits {
            high = middle;
        } else {
            low = middle + 1;
        }
    }
    proof {
        assert forall|n: int| first <= n <= last implies (#[trigger] numeral(half, n) >= bits
            <==> n >= low) by {
            if n > low {
                lemma_numerals_increase(half, low as int, n);
            }
            if n < low - 1 {
                lemma_numerals_increase(half, n, low - 1);
            }
        }
    }
    low
}

/// The bounds of the numerals from `first` to `last` with a magnitude of
/// `[lo, hi]`. Where there is none, nothing is returned.
pub fn numerals_within(half: bool, first: u64, last: u64, lo: u64, hi: u64) -> (r: Option<
    (u64, u64),
>)
    requires
        is_numeral(half, first as int),
        is_numeral(half, last as int),
        first <= last,
        hi < u64::MAX,
    ensures
        match r {
            Some((from, to)) => {
                &&& first <= from <= to <= last
                &&& forall|n: int|
                    first <= n <= last ==> (lo <= #[trigger] numeral(half, n) <= hi <==> from <= n
                        <= to)
            },
            None => forall|n: int|
                first <= n <= last ==> !(lo <= #[trigger] numeral(half, n) <= hi),
        },
{
    let from: u64 = first_numeral_at_least(half, first, last, lo);
    let past: u64 = first_numeral_at_least(half, first, last, hi + 1);
    if from < past {
        Some((from, past - 1))
    } else {
        None
    }
}

/// Whether a magnitude below two to the power of fifty-three is as near to
/// `n / d` as its last place allows.
pub open spec fn is_nearest_ratio(bits: int, n: int, d: int) -> bool {
    let exponent = bits / 0x10_0000_0000_0000;
    let significand = 0x10_0000_0000_0000 + bits % 0x10_0000_0000_0000;
    &&& 0 < exponent <= 1075
    &&& -d <= 2 * (significand * d - n * pow2((1075 - exponent) as nat)) <= d
}

/// The magnitude nearest to `n / d`.
pub fn ratio_bits(n: u64, d: u64) -> (r: u64)
    requires
        0 < d <= 256,
        0 < n < 0x10_0000_0000_0000 * d,
    ensures
        is_nearest_ratio(r as int, n as int, d as int),
        r < FLOAT_INFINITY_BITS,
{
    let limit: u64 = 0x10_0000_0000_0000 * d;
    let mut x: u64 = n;
    let mut doublings: u64 = 0;
    proof {
        lemma2_to64();
    }
    while x < limit
        invariant
            n <= x < 2 * limit,
            0 < n < limit,
            limit == 0x10_0000_0000_0000 * d,
            d <= 256,
            doublings <= 60,
            x == n * pow2(doublings as nat),
            x >= pow2(doublings as nat),
            x >= limit ==> doublings > 0,
        decreases 2 * limit - x,
    {
        proof {
            lemma_doubled_product(n as int, doublings as nat);
            if doublings == 60 {
                lemma2_to64_rest();
            }
        }
        x = x * 2;
        doublings = doublings + 1;
    }
    let quotient: u64 = x / d;
    let rest: u64 = x % d;
    proof {
        lemma_quotient(x as int, d as int);
        lemma_halved_product(n as int, doublings as nat);
    }
    let significand: u64 = if 2 * rest >= d {
        quotient + 1
    } else {
        quotient
    };
    let r: u64 = (1075 - doublings) * 0x10_0000_0000_0000 + (significand - 0x10_0000_0000_0000);
    proof {
        let (q, w) = (significand as int, d as int);
        assert(-w <= 2 * (q * w - x) <= w) by (nonlinear_arith)
            requires
                q == if 2 * rest >= d { quotient + 1 } else { quotient as int },
                quotient * d + rest == x,
                0 <= rest < d,
                w == d,
        ;
        if significand < 0x20_0000_0000_0000 {
            assert(r as int / 0x10_0000_0000_0000 == 1075 - doublings);
        } else {
            assert(r as int / 0x10_0000_0000_0000 == 1076 - doublings);
        }
    }
    r
}

proof fn lemma_doubled_product(n: int, doublings: nat)
    ensures
        2 * (n * pow2(doublings)) == n * pow2(doublings + 1),
        pow2(doublings + 1) == 2 * pow2(doublings),
{
    lemma_pow2_unfold(doublings + 1);
    assert(2 * (n * pow2(doublings)) == n * (2 * pow2(doublings))) by (nonlinear_arith);
}

proof fn lemma_halved_product(n: int, doublings: nat)
    requires
        doublings > 0,
    ensures
        n * pow2(doublings) == 2 * (n * pow2((doublings - 1) as nat)),
{
    lemma_doubled_product(n, (doublings - 1) as nat);
}

proof fn lemma_quotient(x: int, d: int)
    requires
        0 < d,
        0x10_0000_0000_0000 * d <= x < 0x20_0000_0000_0000 * d,
    ensures
        0x10_0000_0000_0000 <= x / d < 0x20_0000_0000_0000,
        (x / d) * d + x % d == x,
        0 <= x % d < d,
{
    vstd::arithmetic::div_mod::lemma_fundamental_div_mod(x, d);
    vstd::arithmetic::div_mod::lemma_mod_bound(x, d);
    let q = x / d;
    assert((x / d) * d == d * (x / d)) by (nonlinear_arith);
    assert(q >= 0x10_0000_0000_0000) by (nonlinear_arith)
        requires
            q * d + x % d == x,
            x % d < d,
            0 < d,
            0x10_0000_0000_0000 * d <= x,
    ;
    assert(q < 0x20_0000_0000_0000) by (nonlinear_arith)
        requires
            q * d + x % d == x,
            x % d >= 0,
            0 < d,
            x < 0x20_0000_0000_0000 * d,
    ;
}

} // verus!
