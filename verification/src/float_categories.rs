//! Floating-point values of each category, drawn within a range.

use crate::choices::{
    float_fits, float_magnitude, FloatChoice, FloatValue, FLOAT_INFINITY_BITS, PROBABILITY_ONE,
};
use crate::errors::InternalError;
use crate::float_grids::{
    at_width, indices_within, infinity_index, is_nearest_ratio, lemma_numeral_bounds,
    lemma_numerals_increase, lemma_place_bounds, numeral, numeral_bits, numerals_within,
    ratio_bits, value_at, FloatWidth,
};
use crate::float_order::{float_order, place_of};
use crate::float_restriction::{float_restrict_and_redraw, redrawn};
use crate::float_rounding::{nearest, nearest_single, round_to_single, rounded};
use crate::float_sampling::{
    bits_fit, drawn_by_digits, log_uniform_integer, log_uniform_magnitude, BINADE_VALUES,
    MAX_FINITE_BITS, MIN_POSITIVE_BITS, ONE_BITS,
};
use crate::float_weights::{
    float_category_of, lemma_selection_is_unique, lemma_whole_weight_selects, selects,
    FloatCategory, FloatGenerationParameters, FLOAT_CATEGORIES,
};
use crate::floats::{
    above, below, next_down, next_up, single_above, single_below, step_down, step_up, widen,
    widened, SIGN_BIT, SINGLE_MAX_BITS,
};
use crate::rng::EngineRng;
use crate::sampling::{float_kind_ok, Distributions, Sampler};
use vstd::prelude::*;

verus! {

/// The greatest magnitude below one tenth.
pub const BELOW_ONE_TENTH_BITS: u64 = 0x3fb9_9999_9999_9999;

/// The magnitude of a power of two of full precision.
pub open spec fn power(exponent: int) -> int {
    (exponent + 1023) * 0x10_0000_0000_0000
}

/// The bounds of the magnitudes of a category, where they fill a stretch.
pub open spec fn band(width: FloatWidth, category: FloatCategory) -> Option<(int, int)> {
    match (category, width) {
        (FloatCategory::NearZero, FloatWidth::F32) => Some(
            (power(-126), BELOW_ONE_TENTH_BITS as int),
        ),
        (FloatCategory::NearZero, FloatWidth::F64) => Some(
            (power(-1022), BELOW_ONE_TENTH_BITS as int),
        ),
        (FloatCategory::Subnormal, FloatWidth::F32) => Some((power(-149), power(-126) - 1)),
        (FloatCategory::Subnormal, FloatWidth::F64) => Some((1, power(-1022) - 1)),
        (FloatCategory::NearMaxForAdd, FloatWidth::F32) => Some(
            (power(127), SINGLE_MAX_BITS as int),
        ),
        (FloatCategory::NearMaxForAdd, FloatWidth::F64) => Some(
            (power(1023), MAX_FINITE_BITS as int),
        ),
        (FloatCategory::NearMaxForMul, FloatWidth::F32) => Some((power(63), power(65) - 1)),
        (FloatCategory::NearMaxForMul, FloatWidth::F64) => Some((power(511), power(513) - 1)),
        (FloatCategory::NearSqrtMinPositive, FloatWidth::F32) => Some(
            (power(-64), power(-62) - 1),
        ),
        (FloatCategory::NearSqrtMinPositive, FloatWidth::F64) => Some(
            (power(-512), power(-510) - 1),
        ),
        (FloatCategory::MaxMagnitude, FloatWidth::F32) => Some(
            (SINGLE_MAX_BITS as int, SINGLE_MAX_BITS as int),
        ),
        (FloatCategory::MaxMagnitude, FloatWidth::F64) => Some(
            (MAX_FINITE_BITS as int, MAX_FINITE_BITS as int),
        ),
        (FloatCategory::MaxExactInteger, FloatWidth::F32) => Some((power(24), power(24))),
        (FloatCategory::MaxExactInteger, FloatWidth::F64) => Some((power(53), power(53))),
        _ => None,
    }
}

/// The bounds of the magnitudes of a category, where they fill a stretch.
pub fn category_band(width: FloatWidth, category: FloatCategory) -> (r: Option<(u64, u64)>)
    ensures
        match r {
            Some((lo, hi)) => {
                &&& band(width, category) == Some((lo as int, hi as int))
                &&& 1 <= lo <= hi <= MAX_FINITE_BITS
            },
            None => band(width, category) is None,
        },
{
    let single: bool = width == FloatWidth::F32;
    match category {
        FloatCategory::NearZero => if single {
            Some((0x3810_0000_0000_0000, BELOW_ONE_TENTH_BITS))
        } else {
            Some((MIN_POSITIVE_BITS, BELOW_ONE_TENTH_BITS))
        },
        FloatCategory::Subnormal => if single {
            Some((0x36a0_0000_0000_0000, 0x380f_ffff_ffff_ffff))
        } else {
            Some((1, 0x000f_ffff_ffff_ffff))
        },
        FloatCategory::NearMaxForAdd => if single {
            Some((0x47e0_0000_0000_0000, SINGLE_MAX_BITS))
        } else {
            Some((0x7fe0_0000_0000_0000, MAX_FINITE_BITS))
        },
        FloatCategory::NearMaxForMul => if single {
            Some((0x43e0_0000_0000_0000, 0x43ff_ffff_ffff_ffff))
        } else {
            Some((0x5fe0_0000_0000_0000, 0x5fff_ffff_ffff_ffff))
        },
        FloatCategory::NearSqrtMinPositive => if single {
            Some((0x3bf0_0000_0000_0000, 0x3c0f_ffff_ffff_ffff))
        } else {
            Some((0x1ff0_0000_0000_0000, 0x200f_ffff_ffff_ffff))
        },
        FloatCategory::MaxMagnitude => if single {
            Some((SINGLE_MAX_BITS, SINGLE_MAX_BITS))
        } else {
            Some((MAX_FINITE_BITS, MAX_FINITE_BITS))
        },
        FloatCategory::MaxExactInteger => if single {
            Some((0x4170_0000_0000_0000, 0x4170_0000_0000_0000))
        } else {
            Some((0x4340_0000_0000_0000, 0x4340_0000_0000_0000))
        },
        _ => None,
    }
}

/// The places of one half, of one and of one and a half among the magnitudes of
/// a format.
pub open spec fn around_one(width: FloatWidth) -> (int, int, int) {
    match width {
        FloatWidth::F32 => (0x3f00_0000, 0x3f80_0000, 0x3fc0_0000),
        FloatWidth::F64 => (
            0x3fe0_0000_0000_0000,
            ONE_BITS as int,
            0x3ff8_0000_0000_0000,
        ),
    }
}

/// Whether a place lies between those of one half and of one and a half.
pub open spec fn is_near_one(width: FloatWidth, index: int) -> bool {
    around_one(width).0 < index < around_one(width).2
}

/// How many magnitudes of a format share one exponent.
pub open spec fn binade(width: FloatWidth) -> int {
    match width {
        FloatWidth::F32 => 0x80_0000,
        FloatWidth::F64 => 0x10_0000_0000_0000,
    }
}

/// Whether a place holds a power of two of full precision, or the magnitude just
/// below one.
pub open spec fn is_edge(width: FloatWidth, index: int) -> bool {
    &&& 0 < index < infinity_index(width)
    &&& index % binade(width) == 0 || (index + 1) % binade(width) == 0
}

/// The largest integer up to which a format holds every integer.
pub open spec fn largest_exact(width: FloatWidth) -> int {
    match width {
        FloatWidth::F32 => 0x100_0000,
        FloatWidth::F64 => 0x20_0000_0000_0000,
    }
}

/// Whether a format holds `n`, or `n` and a half, with all the integers up to
/// it.
pub open spec fn is_numeral_of(width: FloatWidth, half: bool, n: int) -> bool {
    if half {
        0 <= n < largest_exact(width) / 2
    } else {
        1 <= n <= largest_exact(width)
    }
}

/// The denominator that an odd number stands for.
pub open spec fn denominator(odd: int, twice: bool) -> int {
    if twice {
        2 * odd
    } else {
        odd
    }
}

/// Whether a magnitude is nearest to a quotient without a finite binary
/// expansion: its denominator is an odd number that does not divide the
/// numerator, or twice such a number.
pub open spec fn is_non_dyadic(m: int, n: int, odd: int, twice: bool) -> bool {
    &&& odd % 2 == 1
    &&& n % odd != 0
    &&& is_nearest_ratio(m, n, denominator(odd, twice))
}

/// Whether a magnitude belongs to a category. For the ends of a range and the
/// ordinary values the magnitude does not tell.
pub open spec fn magnitude_in(width: FloatWidth, category: FloatCategory, m: int) -> bool {
    match category {
        FloatCategory::NearOne => exists|i: int|
            is_near_one(width, i) && #[trigger] at_width(width, i) == m,
        FloatCategory::Integer => exists|n: int|
            is_numeral_of(width, false, n) && #[trigger] numeral(false, n) == m,
        FloatCategory::HalfInteger => exists|n: int|
            is_numeral_of(width, true, n) && #[trigger] numeral(true, n) == m,
        FloatCategory::BinadeEdge => exists|i: int|
            is_edge(width, i) && #[trigger] at_width(width, i) == m,
        FloatCategory::NonDyadic => exists|n: int, odd: int, twice: bool|
            #[trigger] is_non_dyadic(m, n, odd, twice),
        FloatCategory::Nan => m > FLOAT_INFINITY_BITS,
        FloatCategory::Infinity => m == FLOAT_INFINITY_BITS,
        FloatCategory::SignedZero => m == 0,
        FloatCategory::Endpoint | FloatCategory::Ordinary => true,
        _ => band(width, category) matches Some((lo, hi)) && lo <= m <= hi,
    }
}

/// Whether some value fits the kind and belongs to a category.
pub open spec fn is_offered(k: FloatChoice, width: FloatWidth, category: FloatCategory) -> bool {
    exists|bits: u64| #[trigger]
        bits_fit(k, bits) && magnitude_in(width, category, float_magnitude(bits))
}

/// Whether the magnitudes of a category are positive and finite, and can be
/// told.
pub open spec fn is_of_magnitudes(category: FloatCategory) -> bool {
    match category {
        FloatCategory::NearOne
        | FloatCategory::Integer
        | FloatCategory::HalfInteger
        | FloatCategory::BinadeEdge => true,
        _ => band(FloatWidth::F64, category) is Some,
    }
}

/// Whether the numbers that are handed out next say which magnitude of a
/// category it is.
///
/// Near one, they are a direction and a distance; for integers and halves, how
/// many digits the integer has and the integer; at the edges of binades, the
/// number of the edge and a side of it; else an exponent and the magnitude.
pub open spec fn magnitude_drawn(
    width: FloatWidth,
    category: FloatCategory,
    before: Seq<int>,
    after: Seq<int>,
    m: int,
) -> bool {
    match category {
        FloatCategory::NearOne => exists|coin: int, up: bool, i: int|
            at_width(width, i) == m && #[trigger] drawn_near(
                before.push(coin),
                after,
                around_one(width).1,
                up,
                i,
            ),
        FloatCategory::Integer => exists|n: int|
            is_numeral_of(width, false, n) && #[trigger] numeral(false, n) == m && drawn_by_digits(
                before,
                after,
                n,
            ),
        FloatCategory::HalfInteger => exists|n: int|
            is_numeral_of(width, true, n) && #[trigger] numeral(true, n) == m && drawn_by_digits(
                before,
                after,
                n,
            ),
        FloatCategory::BinadeEdge => exists|number: int, coin: int, i: int|
            #[trigger] at_width(width, i) == m && after == #[trigger] before.push(number).push(
                coin,
            ) && (i == number * binade(width) || i == number * binade(width) - 1),
        _ => after == before.push(m / BINADE_VALUES as int).push(m),
    }
}

/// Whether a place lies upward or downward of that of one, by a distance that is
/// drawn.
pub open spec fn drawn_near(
    before: Seq<int>,
    after: Seq<int>,
    one: int,
    up: bool,
    place: int,
) -> bool {
    if up {
        place >= one && drawn_by_digits(before, after, place - one)
    } else {
        place <= one && drawn_by_digits(before, after, one - place)
    }
}

/// A place between `from` and `to` that is more often near the place of one than
/// far from it.
fn near_one_between(from: u64, to: u64, one: u64, upward: bool, rng: &mut EngineRng) -> (r: u64)
    requires
        from <= to,
    ensures
        from <= r <= to,
        drawn_near(
            old(rng).handed(),
            final(rng).handed(),
            one as int,
            to >= one && (upward || from > one),
            r as int,
        ),
{
    if to >= one && (upward || from > one) {
        let nearest: u64 = if from > one {
            from - one
        } else {
            0
        };
        one + log_uniform_integer(nearest, to - one, rng)
    } else {
        let nearest: u64 = if to < one {
            one - to
        } else {
            0
        };
        one - log_uniform_integer(nearest, one - from, rng)
    }
}

/// A magnitude of `[lo, hi]` near one, where there is any.
fn pick_near_one(width: FloatWidth, lo: u64, hi: u64, rng: &mut EngineRng) -> (r: Option<u64>)
    requires
        lo <= hi <= MAX_FINITE_BITS,
    ensures
        match r {
            Some(m) => lo <= m <= hi && magnitude_in(width, FloatCategory::NearOne, m as int)
                && magnitude_drawn(
                width,
                FloatCategory::NearOne,
                old(rng).handed(),
                final(rng).handed(),
                m as int,
            ),
            None => final(rng).handed() == old(rng).handed() && forall|m: int|
                lo <= m <= hi ==> !#[trigger] magnitude_in(width, FloatCategory::NearOne, m),
        },
{
    let (half, one, past): (u64, u64, u64) = match width {
        FloatWidth::F32 => (0x3f00_0000, 0x3f80_0000, 0x3fc0_0000),
        FloatWidth::F64 => (0x3fe0_0000_0000_0000, ONE_BITS, 0x3ff8_0000_0000_0000),
    };
    let (first, last): (u64, u64) = indices_within(width, lo, hi);
    let from: u64 = if first > half {
        first
    } else {
        half + 1
    };
    let to: u64 = if last < past {
        last
    } else {
        past - 1
    };
    if from > to {
        return None;
    }
    let coin: u64 = rng.next_u64();
    let upward: bool = coin % 2 == 1;
    let index: u64 = near_one_between(from, to, one, upward, rng);
    assert(drawn_near(
        old(rng).handed().push(coin as int),
        rng.handed(),
        around_one(width).1,
        to >= one && (upward || from > one),
        index as int,
    ));
    assert(is_near_one(width, index as int));
    Some(value_at(width, index))
}

/// A magnitude of `[lo, hi]` that is an integer, or halfway between two, where
/// there is any.
fn pick_numeral(width: FloatWidth, half: bool, lo: u64, hi: u64, rng: &mut EngineRng) -> (r: Option<
    u64,
>)
    requires
        lo <= hi <= MAX_FINITE_BITS,
    ensures
        match r {
            Some(m) => lo <= m <= hi && exists|n: int|
                is_numeral_of(width, half, n) && #[trigger] numeral(half, n) == m
                    && drawn_by_digits(old(rng).handed(), final(rng).handed(), n),
            None => final(rng).handed() == old(rng).handed() && forall|n: int|
                is_numeral_of(width, half, n) ==> !(lo <= #[trigger] numeral(half, n) <= hi),
        },
{
    let exact: u64 = match width {
        FloatWidth::F32 => 0x100_0000,
        FloatWidth::F64 => 0x20_0000_0000_0000,
    };
    let (first, last): (u64, u64) = if half {
        (0, exact / 2 - 1)
    } else {
        (1, exact)
    };
    match numerals_within(half, first, last, lo, hi) {
        Some((from, to)) => {
            let n: u64 = log_uniform_integer(from, to, rng);
            assert(is_numeral_of(width, half, n as int));
            Some(numeral_bits(half, n))
        },
        None => None,
    }
}

/// A magnitude of `[lo, hi]` at the edge of a binade, where there is any.
fn pick_edge(width: FloatWidth, lo: u64, hi: u64, rng: &mut EngineRng) -> (r: Option<u64>)
    requires
        1 <= lo <= hi <= MAX_FINITE_BITS,
    ensures
        match r {
            Some(m) => lo <= m <= hi && magnitude_in(width, FloatCategory::BinadeEdge, m as int)
                && magnitude_drawn(
                width,
                FloatCategory::BinadeEdge,
                old(rng).handed(),
                final(rng).handed(),
                m as int,
            ),
            None => final(rng).handed() == old(rng).handed() && forall|m: int|
                lo <= m <= hi ==> !#[trigger] magnitude_in(width, FloatCategory::BinadeEdge, m),
        },
{
    let size: u64 = match width {
        FloatWidth::F32 => 0x80_0000,
        FloatWidth::F64 => 0x10_0000_0000_0000,
    };
    let (from, to): (u64, u64) = indices_within(width, lo, hi);
    proof {
        assert(at_width(width, 0) == 0);
        assert(from > 0);
    }
    if from > to {
        return None;
    }
    let first: u64 = (from + (size - 1)) / size;
    let last: u64 = (to + 1) / size;
    proof {
        lemma_edges(width, from as int, to as int, size as int);
    }
    if first > last {
        return None;
    }
    let number: u64 = rng.range_inclusive(first, last);
    let coin: u64 = rng.next_u64();
    let below: bool = coin % 2 == 1;
    proof {
        lemma_edge(width, from as int, to as int, size as int, number as int);
    }
    let power: u64 = number * size;
    let index: u64 = if power > to || below && power - 1 >= from {
        power - 1
    } else {
        power
    };
    assert(rng.handed() == old(rng).handed().push(number as int).push(coin as int));
    Some(value_at(width, index))
}

/// Each edge between two places is a multiple of the size of a binade that lies
/// between them, or comes just before one.
proof fn lemma_edges(width: FloatWidth, from: int, to: int, size: int)
    requires
        size == binade(width),
        0 < from <= to < infinity_index(width),
    ensures
        (from + (size - 1)) / size > (to + 1) / size ==> forall|i: int|
            #![trigger is_edge(width, i)]
            from <= i <= to ==> !is_edge(width, i),
{
    if (from + (size - 1)) / size > (to + 1) / size {
        assert forall|i: int| #![trigger is_edge(width, i)] from <= i <= to implies !is_edge(
            width,
            i,
        ) by {
            match width {
                FloatWidth::F32 => {},
                FloatWidth::F64 => {},
            }
        }
    }
}

/// The multiples of the size of a binade between two places are edges, and so
/// are the places before them.
proof fn lemma_edge(width: FloatWidth, from: int, to: int, size: int, number: int)
    requires
        size == binade(width),
        0 < from <= to < infinity_index(width),
        (from + (size - 1)) / size <= number <= (to + 1) / size,
    ensures
        from <= number * size <= to + 1,
        number * size <= to ==> is_edge(width, number * size),
        number * size > from ==> is_edge(width, number * size - 1),
        number * size > to ==> number * size - 1 >= from,
{
    match width {
        FloatWidth::F32 => {
            assert(number * size == number * 0x80_0000);
            assert(from <= number * 0x80_0000 <= to + 1);
            assert((number * 0x80_0000) % 0x80_0000 == 0);
        },
        FloatWidth::F64 => {
            assert(number * size == number * 0x10_0000_0000_0000);
            assert(from <= number * 0x10_0000_0000_0000 <= to + 1);
            assert((number * 0x10_0000_0000_0000) % 0x10_0000_0000_0000 == 0);
        },
    }
}

/// A value of a magnitude.
pub open spec fn signed(m: int, negative: bool) -> u64 {
    if negative {
        (SIGN_BIT + m) as u64
    } else {
        m as u64
    }
}

/// Whether the positive and finite magnitudes that fit a kind with the given sign
/// are those of `[lo, hi]`.
pub open spec fn is_side(k: FloatChoice, negative: bool, lo: int, hi: int) -> bool {
    &&& 1 <= lo
    &&& hi <= MAX_FINITE_BITS
    &&& forall|m: int|
        0 < m <= MAX_FINITE_BITS ==> (lo <= m <= hi <==> bits_fit(
            k,
            #[trigger] signed(m, negative),
        ))
}

/// The bounds of the positive and finite magnitudes that fit a kind with the
/// given sign. The first lies above the second where there is none.
pub fn side_of(k: &FloatChoice, negative: bool) -> (r: (u64, u64))
    ensures
        is_side(*k, negative, r.0 as int, r.1 as int),
{
    let min_magnitude: u64 = k.min_bits % SIGN_BIT;
    let max_magnitude: u64 = k.max_bits % SIGN_BIT;
    let min_negative: bool = k.min_bits >= SIGN_BIT;
    let max_negative: bool = k.max_bits >= SIGN_BIT;
    if negative && !min_negative || !negative && max_negative {
        return (1, 0);
    }
    let (near, far): (u64, u64) = if negative {
        (
            if max_negative {
                max_magnitude
            } else {
                0
            },
            min_magnitude,
        )
    } else {
        (
            if min_negative {
                0
            } else {
                min_magnitude
            },
            max_magnitude,
        )
    };
    let smallest: u64 = k.smallest_magnitude_bits % SIGN_BIT;
    let mut lo: u64 = if near > smallest {
        near
    } else {
        smallest
    };
    if lo == 0 {
        lo = 1;
    }
    let hi: u64 = if far > MAX_FINITE_BITS {
        MAX_FINITE_BITS
    } else {
        far
    };
    (lo, hi)
}

/// A magnitude of `[lo, hi]` that belongs to a category, where there is any.
fn pick_magnitude(
    width: FloatWidth,
    category: FloatCategory,
    lo: u64,
    hi: u64,
    rng: &mut EngineRng,
) -> (r: Option<u64>)
    requires
        is_of_magnitudes(category),
        1 <= lo <= hi <= MAX_FINITE_BITS,
    ensures
        match r {
            Some(m) => lo <= m <= hi && magnitude_in(width, category, m as int) && magnitude_drawn(
                width,
                category,
                old(rng).handed(),
                final(rng).handed(),
                m as int,
            ),
            None => final(rng).handed() == old(rng).handed() && forall|m: int|
                lo <= m <= hi ==> !#[trigger] magnitude_in(width, category, m),
        },
{
    match category {
        FloatCategory::NearOne => pick_near_one(width, lo, hi, rng),
        FloatCategory::Integer => pick_numeral(width, false, lo, hi, rng),
        FloatCategory::HalfInteger => pick_numeral(width, true, lo, hi, rng),
        FloatCategory::BinadeEdge => pick_edge(width, lo, hi, rng),
        _ => match category_band(width, category) {
            Some((first, last)) => {
                let from: u64 = if lo > first {
                    lo
                } else {
                    first
                };
                let to: u64 = if hi < last {
                    hi
                } else {
                    last
                };
                if from <= to {
                    Some(log_uniform_magnitude(from, to, rng))
                } else {
                    None
                }
            },
            None => None,
        },
    }
}

/// Whether some value of one sign fits the kind and belongs to a category of
/// positive and finite magnitudes.
pub open spec fn is_offered_on(
    k: FloatChoice,
    width: FloatWidth,
    category: FloatCategory,
    negative: bool,
) -> bool {
    exists|m: int|
        0 < m <= MAX_FINITE_BITS && bits_fit(k, #[trigger] signed(m, negative)) && magnitude_in(
            width,
            category,
            m,
        )
}

/// A value of one sign that fits the kind and belongs to a category, where there
/// is any.
fn pick_on_side(
    k: &FloatChoice,
    width: FloatWidth,
    category: FloatCategory,
    negative: bool,
    rng: &mut EngineRng,
) -> (r: Option<u64>)
    requires
        is_of_magnitudes(category),
    ensures
        match r {
            Some(bits) => {
                &&& bits_fit(*k, bits)
                &&& (bits >= SIGN_BIT) == negative
                &&& magnitude_in(width, category, float_magnitude(bits))
                &&& magnitude_drawn(
                    width,
                    category,
                    old(rng).handed(),
                    final(rng).handed(),
                    float_magnitude(bits),
                )
            },
            None => final(rng).handed() == old(rng).handed() && !is_offered_on(
                *k,
                width,
                category,
                negative,
            ),
        },
{
    let (lo, hi): (u64, u64) = side_of(k, negative);
    if lo > hi {
        return None;
    }
    match pick_magnitude(width, category, lo, hi, rng) {
        Some(m) => {
            assert(bits_fit(*k, signed(m as int, negative)));
            if negative {
                Some(SIGN_BIT + m)
            } else {
                Some(m)
            }
        },
        None => None,
    }
}

/// The magnitudes of such a category are positive and finite.
proof fn lemma_magnitudes_are_finite(width: FloatWidth, category: FloatCategory, m: int)
    requires
        is_of_magnitudes(category),
        magnitude_in(width, category, m),
    ensures
        0 < m <= MAX_FINITE_BITS,
{
    match category {
        FloatCategory::NearOne => {
            let i = choose|i: int| is_near_one(width, i) && #[trigger] at_width(width, i) == m;
            lemma_place_bounds(width, i);
        },
        FloatCategory::BinadeEdge => {
            let i = choose|i: int| is_edge(width, i) && #[trigger] at_width(width, i) == m;
            lemma_place_bounds(width, i);
        },
        FloatCategory::Integer => {
            let n = choose|n: int|
                is_numeral_of(width, false, n) && #[trigger] numeral(false, n) == m;
            lemma_numeral_bounds(false, n);
        },
        FloatCategory::HalfInteger => {
            let n = choose|n: int|
                is_numeral_of(width, true, n) && #[trigger] numeral(true, n) == m;
            lemma_numeral_bounds(true, n);
        },
        _ => {},
    }
}

/// A value that fits the kind and belongs to a category, where there is any. The
/// given sign comes first.
fn pick_of_magnitudes(
    k: &FloatChoice,
    width: FloatWidth,
    category: FloatCategory,
    negative: bool,
    rng: &mut EngineRng,
) -> (r: Option<u64>)
    requires
        is_of_magnitudes(category),
    ensures
        match r {
            Some(bits) => {
                &&& bits_fit(*k, bits)
                &&& (bits >= SIGN_BIT) == (negative == is_offered_on(
                    *k,
                    width,
                    category,
                    negative,
                ))
                &&& magnitude_in(width, category, float_magnitude(bits))
                &&& magnitude_drawn(
                    width,
                    category,
                    old(rng).handed(),
                    final(rng).handed(),
                    float_magnitude(bits),
                )
            },
            None => final(rng).handed() == old(rng).handed() && !is_offered(*k, width, category),
        },
{
    match pick_on_side(k, width, category, negative, rng) {
        Some(bits) => {
            assert(bits == signed(float_magnitude(bits), negative));
            proof {
                lemma_magnitudes_are_finite(width, category, float_magnitude(bits));
            }
            Some(bits)
        },
        None => {
            let r = pick_on_side(k, width, category, !negative, rng);
            proof {
                if r is None {
                    assert forall|bits: u64| #[trigger] bits_fit(*k, bits) implies !magnitude_in(
                        width,
                        category,
                        float_magnitude(bits),
                    ) by {
                        let m = float_magnitude(bits);
                        if magnitude_in(width, category, m) {
                            lemma_magnitudes_are_finite(width, category, m);
                            assert(bits == signed(m, bits >= SIGN_BIT));
                        }
                    }
                }
            }
            r
        },
    }
}

/// A value of the given magnitude that fits the kind, where there is any. The
/// given sign comes first.
fn pick_landmark(k: &FloatChoice, magnitude: u64, negative: bool) -> (r: Option<u64>)
    requires
        magnitude <= FLOAT_INFINITY_BITS,
    ensures
        match r {
            Some(bits) => bits_fit(*k, bits) && bits == signed(
                magnitude as int,
                negative == bits_fit(*k, signed(magnitude as int, negative)),
            ),
            None => forall|bits: u64| #[trigger]
                bits_fit(*k, bits) ==> float_magnitude(bits) != magnitude,
        },
{
    let minus: u64 = SIGN_BIT + magnitude;
    let (first, second): (u64, u64) = if negative {
        (minus, magnitude)
    } else {
        (magnitude, minus)
    };
    let r = if k.validate(&FloatValue { bits: first, order: 0 }) {
        Some(first)
    } else if k.validate(&FloatValue { bits: second, order: 0 }) {
        Some(second)
    } else {
        None
    };
    proof {
        if r is None {
            assert forall|bits: u64| #[trigger] bits_fit(*k, bits) implies float_magnitude(bits)
                != magnitude by {
                assert(bits_fit(*k, magnitude) == false);
                assert(bits_fit(*k, minus) == false);
            }
        }
    }
    r
}

/// The largest integer at most a magnitude, up to the one past which not every
/// integer is representable.
fn whole_part(bits: u64) -> (r: u64)
    requires
        bits <= MAX_FINITE_BITS,
    ensures
        r <= 0x20_0000_0000_0000,
        forall|n: int|
            1 <= n <= 0x20_0000_0000_0000 ==> (#[trigger] numeral(false, n) <= bits <==> n <= r),
{
    match numerals_within(false, 1, 0x20_0000_0000_0000, 0, bits) {
        Some((from, to)) => {
            proof {
                assert(numeral(false, from as int) <= bits);
                if from > 1 {
                    lemma_numerals_increase(false, 1, from as int);
                }
                lemma_numeral_bounds(false, 1);
                assert forall|n: int| 1 <= n <= 0x20_0000_0000_0000 implies (#[trigger] numeral(
                    false,
                    n,
                ) <= bits <==> n <= to) by {
                    lemma_numeral_bounds(false, n);
                }
            }
            to
        },
        None => {
            proof {
                assert forall|n: int| 1 <= n <= 0x20_0000_0000_0000 implies (#[trigger] numeral(
                    false,
                    n,
                ) <= bits <==> n <= 0) by {
                    lemma_numeral_bounds(false, n);
                }
            }
            0
        },
    }
}

/// The magnitude of `whole` and `part` over the denominator, unless the quotient
/// has a finite binary expansion.
pub fn non_dyadic_bits(whole: u64, part: u64, odd: u64, twice: bool) -> (r: Option<u64>)
    requires
        whole < 0x10_0000_0000_0000,
        1 < odd < 128,
        odd % 2 == 1,
        0 < part < denominator(odd as int, twice),
    ensures
        ({
            let n = whole * denominator(odd as int, twice) + part;
            match r {
                Some(bits) => bits <= MAX_FINITE_BITS && is_non_dyadic(
                    bits as int,
                    n,
                    odd as int,
                    twice,
                ),
                None => n % odd as int == 0,
            }
        }),
{
    let d: u64 = if twice {
        2 * odd
    } else {
        odd
    };
    assert(0 <= whole * d && whole * d + d <= 0x10_0000_0000_0000 * d) by (nonlinear_arith)
        requires
            0 <= whole < 0x10_0000_0000_0000,
            0 < d,
    ;
    let n: u64 = whole * d + part;
    if n % odd == 0 {
        None
    } else {
        Some(ratio_bits(n, d))
    }
}

/// How often a quotient is drawn before none is taken to lie in the range.
pub const QUOTIENT_ATTEMPTS: u64 = 32;

/// The odd number of an attempt. Each attempt takes four of the numbers that are
/// handed out: a whole part, half of an odd number, whether to double it, and how
/// many parts there are.
pub open spec fn attempted_odd(drawn: Seq<int>, attempt: int) -> int {
    2 * drawn[4 * attempt + 1] + 1
}

/// Whether the odd number of an attempt is doubled.
pub open spec fn attempted_twice(drawn: Seq<int>, attempt: int) -> bool {
    drawn[4 * attempt + 2] % 2 == 1
}

/// The numerator of an attempt.
pub open spec fn attempted_numerator(drawn: Seq<int>, attempt: int) -> int {
    drawn[4 * attempt] * denominator(
        attempted_odd(drawn, attempt),
        attempted_twice(drawn, attempt),
    ) + drawn[4 * attempt + 3]
}

/// Whether an attempt gives a magnitude.
pub open spec fn attempt_gives(drawn: Seq<int>, attempt: int, m: int) -> bool {
    is_non_dyadic(
        m,
        attempted_numerator(drawn, attempt),
        attempted_odd(drawn, attempt),
        attempted_twice(drawn, attempt),
    )
}

/// Whether an attempt gives nothing of `[lo, hi]`: its quotient has a finite
/// binary expansion, or lies outside.
pub open spec fn attempt_fails(drawn: Seq<int>, attempt: int, lo: int, hi: int) -> bool {
    ||| attempted_numerator(drawn, attempt) % attempted_odd(drawn, attempt) == 0
    ||| exists|m: int| #[trigger] attempt_gives(drawn, attempt, m) && !(lo <= m <= hi)
}

/// Whether the first attempts give nothing of `[lo, hi]`.
pub open spec fn attempts_fail(drawn: Seq<int>, attempts: int, lo: int, hi: int) -> bool {
    forall|j: int| 0 <= j < attempts ==> #[trigger] attempt_fails(drawn, j, lo, hi)
}

/// Whether a magnitude of `[lo, hi]` comes of the first attempt that gives one,
/// or none of any. No attempt is made where every magnitude is an integer.
pub open spec fn quotient_drawn(
    before: Seq<int>,
    after: Seq<int>,
    lo: int,
    hi: int,
    drawn: Seq<int>,
    r: Option<u64>,
) -> bool {
    &&& after == before + drawn
    &&& match r {
        Some(m) => {
            let last = drawn.len() / 4 - 1;
            &&& lo <= m <= hi
            &&& drawn.len() == 4 * (last + 1)
            &&& 0 <= last < QUOTIENT_ATTEMPTS
            &&& attempt_gives(drawn, last, m as int)
            &&& attempts_fail(drawn, last, lo, hi)
        },
        None => if lo >= numeral(false, 0x10_0000_0000_0000) {
            drawn.len() == 0
        } else {
            &&& drawn.len() == 4 * QUOTIENT_ATTEMPTS
            &&& attempts_fail(drawn, QUOTIENT_ATTEMPTS as int, lo, hi)
        },
    }
}

/// A magnitude of `[lo, hi]` without a finite binary expansion, if one is found.
/// Its whole part is at most a hundred, or a hundred more than it has to be.
fn pick_non_dyadic(lo: u64, hi: u64, rng: &mut EngineRng) -> (r: Option<u64>)
    requires
        lo <= hi <= MAX_FINITE_BITS,
    ensures
        exists|drawn: Seq<int>| #[trigger]
            quotient_drawn(
                old(rng).handed(),
                final(rng).handed(),
                lo as int,
                hi as int,
                drawn,
                r,
            ),
{
    let from: u64 = whole_part(lo);
    let mut to: u64 = whole_part(hi);
    let ghost before = rng.handed();
    let ghost mut drawn = Seq::<int>::empty();
    assert(before + drawn =~= before);
    proof {
        if from > 0 {
            assert(numeral(false, from as int) <= lo);
            assert(from <= to);
        }
    }
    if to > from + 100 && to > 100 {
        to = from + 100;
    }
    if to >= 0x10_0000_0000_0000 {
        to = 0xf_ffff_ffff_ffff;
    }
    if from > to {
        assert(quotient_drawn(before, rng.handed(), lo as int, hi as int, drawn, None::<u64>));
        return None;
    }
    let mut attempt: u64 = 0;
    while attempt < QUOTIENT_ATTEMPTS
        invariant
            from <= to < 0x10_0000_0000_0000,
            attempt <= QUOTIENT_ATTEMPTS,
            before == old(rng).handed(),
            rng.handed() == before + drawn,
            drawn.len() == 4 * attempt,
            attempts_fail(drawn, attempt as int, lo as int, hi as int),
        decreases QUOTIENT_ATTEMPTS - attempt,
    {
        let whole: u64 = rng.range_inclusive(from, to);
        let half: u64 = rng.range_inclusive(1, 49);
        let odd: u64 = 2 * half + 1;
        let coin: u64 = rng.next_u64();
        let twice: bool = coin % 2 == 1;
        let last: u64 = if twice {
            2 * odd - 1
        } else {
            odd - 1
        };
        let part: u64 = rng.range_inclusive(1, last);
        let ghost more = drawn + seq![whole as int, half as int, coin as int, part as int];
        proof {
            lemma_more_attempts(drawn, more, attempt as int, lo as int, hi as int);
            assert(rng.handed() =~= before + more);
        }
        if let Some(m) = non_dyadic_bits(whole, part, odd, twice) {
            assert(attempt_gives(more, attempt as int, m as int));
            if lo <= m && m <= hi {
                assert(quotient_drawn(before, rng.handed(), lo as int, hi as int, more, Some(m)));
                return Some(m);
            }
        }
        assert(attempt_fails(more, attempt as int, lo as int, hi as int));
        proof {
            drawn = more;
        }
        attempt = attempt + 1;
    }
    assert(quotient_drawn(before, rng.handed(), lo as int, hi as int, drawn, None::<u64>));
    None
}

/// What comes later changes nothing about the first attempts.
proof fn lemma_more_attempts(drawn: Seq<int>, more: Seq<int>, attempts: int, lo: int, hi: int)
    requires
        0 <= attempts,
        drawn.len() == 4 * attempts,
        more.len() >= drawn.len(),
        more.take(drawn.len() as int) =~= drawn,
        attempts_fail(drawn, attempts, lo, hi),
    ensures
        attempts_fail(more, attempts, lo, hi),
{
    assert forall|j: int| 0 <= j < attempts implies #[trigger] attempt_fails(more, j, lo, hi) by {
        assert(attempt_fails(drawn, j, lo, hi));
        let taken = more.take(drawn.len() as int);
        assert(more[4 * j] == taken[4 * j]);
        assert(more[4 * j + 1] == taken[4 * j + 1]);
        assert(more[4 * j + 2] == taken[4 * j + 2]);
        assert(more[4 * j + 3] == taken[4 * j + 3]);
        if attempted_numerator(drawn, j) % attempted_odd(drawn, j) != 0 {
            let m = choose|m: int| #[trigger] attempt_gives(drawn, j, m) && !(lo <= m <= hi);
            assert(attempt_gives(more, j, m));
        }
    }
}

/// The least value of a format above one that is rounded to it.
pub open spec fn above_at(width: FloatWidth, bits: u64) -> u64 {
    match width {
        FloatWidth::F32 => widened(single_above(nearest(bits))),
        FloatWidth::F64 => above(bits),
    }
}

/// The greatest value of a format below one that is rounded to it.
pub open spec fn below_at(width: FloatWidth, bits: u64) -> u64 {
    match width {
        FloatWidth::F32 => widened(single_below(nearest(bits))),
        FloatWidth::F64 => below(bits),
    }
}

/// A value rounded to a format.
pub open spec fn rounded_at(width: FloatWidth, bits: u64) -> u64 {
    match width {
        FloatWidth::F32 => rounded(bits),
        FloatWidth::F64 => bits,
    }
}

/// The ends of a range and what lies next to them. `inner_min` is one more than
/// the smallest value, and `inner_max` one less than the largest.
pub open spec fn endpoint_floats(
    k: FloatChoice,
    width: FloatWidth,
    inner_min: u64,
    inner_max: u64,
) -> Seq<u64> {
    seq![
        k.min_bits,
        k.max_bits,
        above_at(width, k.min_bits),
        rounded_at(width, inner_min),
        rounded_at(width, inner_max),
        below_at(width, k.max_bits),
    ]
}

/// Those of the ends of a range and what lies next to them that fit the kind, in
/// order.
pub open spec fn fitting_ends(
    k: FloatChoice,
    width: FloatWidth,
    inner_min: u64,
    inner_max: u64,
) -> Seq<u64> {
    endpoint_floats(k, width, inner_min, inner_max).filter(|bits: u64| bits_fit(k, bits))
}

/// Those of the ends of a range and what lies next to them that fit the kind, in
/// order.
pub fn endpoint_candidates(
    k: &FloatChoice,
    width: FloatWidth,
    inner_min: u64,
    inner_max: u64,
) -> (r: Vec<u64>)
    ensures
        r@ == fitting_ends(*k, width, inner_min, inner_max),
{
    let all: Vec<u64> = match width {
        FloatWidth::F32 => vec![
            k.min_bits,
            k.max_bits,
            widen(step_up(nearest_single(k.min_bits))),
            round_to_single(inner_min),
            round_to_single(inner_max),
            widen(step_down(nearest_single(k.max_bits))),
        ],
        FloatWidth::F64 => vec![
            k.min_bits,
            k.max_bits,
            next_up(k.min_bits),
            inner_min,
            inner_max,
            next_down(k.max_bits),
        ],
    };
    let ghost fits = |bits: u64| bits_fit(*k, bits);
    let ghost ends = endpoint_floats(*k, width, inner_min, inner_max);
    assert(all@ =~= ends);
    let mut out: Vec<u64> = Vec::new();
    let mut i: usize = 0;
    assert(all@.take(0).filter(fits) =~= Seq::<u64>::empty()) by {
        reveal(Seq::filter);
    }
    while i < all.len()
        invariant
            i <= all@.len(),
            fits == (|bits: u64| bits_fit(*k, bits)),
            out@ == all@.take(i as int).filter(fits),
        decreases all@.len() - i,
    {
        let bits: u64 = all[i];
        proof {
            reveal(Seq::filter);
            assert(all@.take(i + 1).drop_last() =~= all@.take(i as int));
            assert(all@.take(i + 1).last() == bits);
        }
        if k.validate(&FloatValue { bits, order: 0 }) {
            out.push(bits);
        }
        i = i + 1;
    }
    assert(all@.take(all@.len() as int) =~= ends);
    out
}

/// Whether some value of one sign fits the kind with a positive and finite
/// magnitude.
pub open spec fn has_magnitudes_on(k: FloatChoice, negative: bool) -> bool {
    exists|m: int| 0 < m <= MAX_FINITE_BITS && bits_fit(k, #[trigger] signed(m, negative))
}

/// Whether a value of the kind comes of an exponent and a magnitude that are
/// handed out next. It has the given sign, unless only the other one is possible.
pub open spec fn spread_drawn(
    k: FloatChoice,
    negative: bool,
    before: Seq<int>,
    after: Seq<int>,
    r: Option<u64>,
) -> bool {
    match r {
        Some(bits) => {
            let m = float_magnitude(bits);
            &&& bits_fit(k, bits)
            &&& 0 < m <= MAX_FINITE_BITS
            &&& (bits >= SIGN_BIT) == (negative == has_magnitudes_on(k, negative))
            &&& after == before.push(m / BINADE_VALUES as int).push(m)
        },
        None => {
            &&& !has_magnitudes_on(k, false)
            &&& !has_magnitudes_on(k, true)
            &&& after == before
        },
    }
}

/// A value of the kind with a positive and finite magnitude, where there is any.
/// Each exponent is as likely as any other. The given sign comes first.
fn pick_spread(k: &FloatChoice, negative: bool, rng: &mut EngineRng) -> (r: Option<u64>)
    ensures
        spread_drawn(*k, negative, old(rng).handed(), final(rng).handed(), r),
{
    let (lo, hi): (u64, u64) = side_of(k, negative);
    if lo <= hi {
        let m: u64 = log_uniform_magnitude(lo, hi, rng);
        assert(bits_fit(*k, signed(m as int, negative)));
        return if negative {
            Some(SIGN_BIT + m)
        } else {
            Some(m)
        };
    }
    let (other_lo, other_hi): (u64, u64) = side_of(k, !negative);
    if other_lo <= other_hi {
        let m: u64 = log_uniform_magnitude(other_lo, other_hi, rng);
        assert(bits_fit(*k, signed(m as int, !negative)));
        return if negative {
            Some(m)
        } else {
            Some(SIGN_BIT + m)
        };
    }
    None
}

/// Whether a value comes from all of the kind. The first number that is handed
/// out decides whether the next ones are a sign, an exponent and a magnitude, or
/// digits that tell how far along the range the value lies.
pub open spec fn ordinary_drawn<D: Distributions>(
    d: D,
    k: FloatChoice,
    before: Seq<int>,
    after: Seq<int>,
    coin: int,
    next: int,
    r: Option<u64>,
) -> bool {
    let started = before.push(coin).push(next);
    if coin % 2 == 1 {
        spread_drawn(k, next % 2 == 1, started, after, r)
    } else {
        &&& after == started
        &&& exists|bits: u64| #[trigger]
            redrawn(d, k, next as u64, bits) && r == if bits_fit(k, bits) {
                Some(bits)
            } else {
                None
            }
    }
}

/// Whether a value comes from all of the kind, or there is none.
pub open spec fn ordinary_outcome<D: Distributions>(
    d: D,
    k: FloatChoice,
    before: Seq<int>,
    after: Seq<int>,
    r: Option<u64>,
) -> bool {
    exists|coin: int, next: int| #[trigger]
        ordinary_drawn(d, k, before, after, coin, next, r)
}

/// The first of two signs with which the kind has positive and finite magnitudes.
pub open spec fn quotient_sign(k: FloatChoice, negative: bool) -> bool {
    negative == has_magnitudes_on(k, negative)
}

/// Whether a value of a category comes of the numbers that are handed out, or
/// none does. The first of them, the coin, decides on a sign.
pub open spec fn category_drawn<D: Distributions>(
    d: D,
    k: FloatChoice,
    width: FloatWidth,
    category: FloatCategory,
    before: Seq<int>,
    after: Seq<int>,
    coin: int,
    r: Option<u64>,
) -> bool {
    let negative = coin % 2 == 1;
    let started = before.push(coin);
    match category {
        FloatCategory::Ordinary => r is None && after == started,
        FloatCategory::Endpoint => exists|inner_min: u64, inner_max: u64|
            {
                &&& #[trigger] call_ensures(D::float_step, (&d, k.min_bits, true), inner_min)
                &&& #[trigger] call_ensures(D::float_step, (&d, k.max_bits, false), inner_max)
                &&& end_drawn(fitting_ends(k, width, inner_min, inner_max), started, after, r)
            },
        FloatCategory::Nan => match r {
            Some(bits) => exists|digits: int| after == #[trigger] started.push(digits) && bits
                == signed(FLOAT_INFINITY_BITS + digits, negative),
            None => after == started,
        },
        FloatCategory::Infinity | FloatCategory::SignedZero => {
            let magnitude = if category == FloatCategory::Infinity {
                FLOAT_INFINITY_BITS as int
            } else {
                0
            };
            &&& after == started
            &&& r matches Some(bits) ==> bits == signed(
                magnitude,
                negative == bits_fit(k, signed(magnitude, negative)),
            )
        },
        FloatCategory::NonDyadic => if has_magnitudes_on(k, negative) || has_magnitudes_on(
            k,
            !negative,
        ) {
            exists|lo: int, hi: int, drawn: Seq<int>, m: Option<u64>| #[trigger]
                quotient_drawn(started, after, lo, hi, drawn, m) && is_side(
                    k,
                    quotient_sign(k, negative),
                    lo,
                    hi,
                ) && r == (match m {
                    Some(m) => Some(signed(m as int, quotient_sign(k, negative))),
                    None => None,
                })
        } else {
            r is None && after == started
        },
        _ => match r {
            Some(bits) => {
                &&& (bits >= SIGN_BIT) == (negative == is_offered_on(k, width, category, negative))
                &&& magnitude_drawn(width, category, started, after, float_magnitude(bits))
            },
            None => after == started,
        },
    }
}

/// Whether the next number that is handed out is an index into the ends of a
/// range, unless there are none.
pub open spec fn end_drawn(
    ends: Seq<u64>,
    before: Seq<int>,
    after: Seq<int>,
    r: Option<u64>,
) -> bool {
    if ends.len() == 0 {
        r is None && after == before
    } else {
        exists|i: int| 0 <= i < ends.len() && r == Some(#[trigger] ends[i]) && after
            == before.push(i)
    }
}

/// Whether drawing from a category may fail though there is something to draw.
pub open spec fn may_fail(category: FloatCategory) -> bool {
    match category {
        FloatCategory::Endpoint | FloatCategory::NonDyadic | FloatCategory::Ordinary => true,
        _ => false,
    }
}

/// Whether a value may come of a category: it belongs to it, unless the range
/// has nothing to offer there.
pub open spec fn may_come_of(
    k: FloatChoice,
    width: FloatWidth,
    category: FloatCategory,
    bits: u64,
) -> bool {
    !may_fail(category) && is_offered(k, width, category) ==> magnitude_in(
        width,
        category,
        float_magnitude(bits),
    )
}

/// Whether a value may be drawn: it fits the kind, and comes of a category that
/// is selected.
pub open spec fn may_be_drawn(
    k: FloatChoice,
    width: FloatWidth,
    params: FloatGenerationParameters,
    bits: u64,
) -> bool {
    &&& bits_fit(k, bits)
    &&& exists|u: int, category: FloatCategory| #[trigger]
        selects(params.numbers(), u, category) && 0 <= u < PROBABILITY_ONE && may_come_of(
            k,
            width,
            category,
            bits,
        )
}

/// Whether an ordinary value is drawn where a category gave none.
pub open spec fn falls_through<D: Distributions>(
    d: D,
    k: FloatChoice,
    middle: Seq<int>,
    after: Seq<int>,
    first: Option<u64>,
    drawn: Option<u64>,
) -> bool {
    if first is Some {
        drawn == first && after == middle
    } else {
        ordinary_outcome(d, k, middle, after, drawn)
    }
}

/// Whether a value is drawn when `u` is handed out first: it selects the
/// category, and the numbers up to `middle` give a value of it, or the ones after
/// that an ordinary one. Where there is none, the simplest value stands in.
pub open spec fn float_drawn<D: Distributions>(
    d: D,
    k: FloatChoice,
    width: FloatWidth,
    params: FloatGenerationParameters,
    before: Seq<int>,
    middle: Seq<int>,
    after: Seq<int>,
    u: int,
    v: FloatValue,
) -> bool {
    exists|category: FloatCategory, coin: int, first: Option<u64>, drawn: Option<u64>|
        {
            &&& selects(params.numbers(), u, category)
            &&& #[trigger] category_drawn(
                d,
                k,
                width,
                category,
                before.push(u),
                middle,
                coin,
                first,
            )
            &&& #[trigger] falls_through(d, k, middle, after, first, drawn)
            &&& match drawn {
                Some(bits) => v.bits == bits && v.order == place_of(bits),
                None => v == k.simplest,
            }
        }
}

/// Whether a value is drawn.
pub open spec fn float_outcome<D: Distributions>(
    d: D,
    k: FloatChoice,
    width: FloatWidth,
    params: FloatGenerationParameters,
    before: Seq<int>,
    after: Seq<int>,
    v: FloatValue,
) -> bool {
    exists|u: int, middle: Seq<int>| #[trigger]
        float_drawn(d, k, width, params, before, middle, after, u, v)
}

/// Where one category has all the weight and the range something to offer in
/// it, nothing else is drawn.
pub proof fn lemma_sole_category_is_drawn(
    k: FloatChoice,
    width: FloatWidth,
    params: FloatGenerationParameters,
    category: FloatCategory,
    bits: u64,
)
    requires
        params.numbers()[category.place()] == PROBABILITY_ONE,
        forall|i: int|
            0 <= i < FLOAT_CATEGORIES && i != category.place() ==> #[trigger] params.numbers()[i]
                == 0,
        !may_fail(category),
        is_offered(k, width, category),
        may_be_drawn(k, width, params, bits),
    ensures
        magnitude_in(width, category, float_magnitude(bits)),
{
    let (u, c) = choose|u: int, c: FloatCategory| #[trigger]
        selects(params.numbers(), u, c) && 0 <= u < PROBABILITY_ONE && may_come_of(
            k,
            width,
            c,
            bits,
        );
    lemma_whole_weight_selects(params.numbers(), u, category);
    lemma_selection_is_unique(params.numbers(), u, category, c);
}

impl<D: Distributions> Sampler<D> {
    /// A value of a category that fits the kind, where there is any. For the ends
    /// of the range, quotients and ordinary values there may be none though one
    /// would fit.
    pub fn float_of_category(
        &self,
        k: &FloatChoice,
        width: FloatWidth,
        category: FloatCategory,
        rng: &mut EngineRng,
    ) -> (r: Option<u64>)
        ensures
            match r {
                Some(bits) => bits_fit(*k, bits) && magnitude_in(
                    width,
                    category,
                    float_magnitude(bits),
                ),
                None => may_fail(category) || !is_offered(*k, width, category),
            },
            exists|coin: int| #[trigger]
                category_drawn(
                    self.distributions,
                    *k,
                    width,
                    category,
                    old(rng).handed(),
                    final(rng).handed(),
                    coin,
                    r,
                ),
    {
        let ghost before = rng.handed();
        let coin: u64 = rng.next_u64();
        assert(rng.handed().drop_last() =~= before);
        let r = self.float_of_sign(k, width, category, coin, rng);
        assert(category_drawn(self.distributions, *k, width, category, before, rng.handed(), coin as int, r));
        r
    }

    /// A value of a category that fits the kind, where there is any, when `coin`
    /// has been handed out for its sign.
    fn float_of_sign(
        &self,
        k: &FloatChoice,
        width: FloatWidth,
        category: FloatCategory,
        coin: u64,
        rng: &mut EngineRng,
    ) -> (r: Option<u64>)
        requires
            old(rng).handed().len() > 0,
            old(rng).handed().last() == coin,
        ensures
            match r {
                Some(bits) => bits_fit(*k, bits) && magnitude_in(
                    width,
                    category,
                    float_magnitude(bits),
                ),
                None => may_fail(category) || !is_offered(*k, width, category),
            },
            category_drawn(
                self.distributions,
                *k,
                width,
                category,
                old(rng).handed().drop_last(),
                final(rng).handed(),
                coin as int,
                r,
            ),
    {
        let ghost started = rng.handed();
        assert(started.drop_last().push(coin as int) =~= started);
        let negative: bool = coin % 2 == 1;
        match category {
            FloatCategory::Ordinary => None,
            FloatCategory::Endpoint => {
                let inner_min: u64 = self.distributions.float_step(k.min_bits, true);
                let inner_max: u64 = self.distributions.float_step(k.max_bits, false);
                let ends = endpoint_candidates(k, width, inner_min, inner_max);
                if ends.len() == 0 {
                    assert(end_drawn(ends@, started, rng.handed(), None::<u64>));
                    return None;
                }
                let idx: usize = rng.index(ends.len());
                assert(end_drawn(ends@, started, rng.handed(), Some(ends@[idx as int])));
                proof {
                    endpoint_floats(*k, width, inner_min, inner_max).lemma_filter_pred(
                        |b: u64| bits_fit(*k, b),
                        idx as int,
                    );
                }
                Some(ends[idx])
            },
            FloatCategory::Nan => if k.allow_nan {
                let digits: u64 = rng.range_inclusive(1, 0xf_ffff_ffff_ffff);
                let m: u64 = FLOAT_INFINITY_BITS + digits;
                assert(rng.handed() == started.push(digits as int));
                if negative {
                    Some(SIGN_BIT + m)
                } else {
                    Some(m)
                }
            } else {
                None
            },
            FloatCategory::Infinity => pick_landmark(k, FLOAT_INFINITY_BITS, negative),
            FloatCategory::SignedZero => pick_landmark(k, 0, negative),
            FloatCategory::NonDyadic => {
                let (first_lo, first_hi): (u64, u64) = side_of(k, negative);
                let (sign, lo, hi): (bool, u64, u64) = if first_lo <= first_hi {
                    assert(bits_fit(*k, signed(first_lo as int, negative)));
                    (negative, first_lo, first_hi)
                } else {
                    let (lo, hi): (u64, u64) = side_of(k, !negative);
                    (!negative, lo, hi)
                };
                if lo > hi {
                    return None;
                }
                assert(bits_fit(*k, signed(lo as int, sign)));
                assert(sign == quotient_sign(*k, negative));
                let quotient = pick_non_dyadic(lo, hi, rng);
                let ghost drawn = choose|drawn: Seq<int>| #[trigger]
                    quotient_drawn(
                        started,
                        rng.handed(),
                        lo as int,
                        hi as int,
                        drawn,
                        quotient,
                    );
                assert(quotient_drawn(
                    started,
                    rng.handed(),
                    lo as int,
                    hi as int,
                    drawn,
                    quotient,
                ));
                match quotient {
                    Some(m) => {
                        assert(bits_fit(*k, signed(m as int, sign)));
                        assert(attempt_gives(drawn, drawn.len() / 4 - 1, m as int));
                        if sign {
                            Some(SIGN_BIT + m)
                        } else {
                            Some(m)
                        }
                    },
                    None => None,
                }
            },
            _ => pick_of_magnitudes(k, width, category, negative, rng),
        }
    }

    /// A value from all of the kind: as often one that is as likely as any other
    /// of the range, as one whose exponent is.
    fn ordinary_float(&self, k: &FloatChoice, rng: &mut EngineRng) -> (r: Option<u64>)
        ensures
            r matches Some(bits) ==> bits_fit(*k, bits),
            ordinary_outcome(self.distributions, *k, old(rng).handed(), final(rng).handed(), r),
    {
        let ghost before = rng.handed();
        let coin: u64 = rng.next_u64();
        let next: u64 = rng.next_u64();
        if coin % 2 == 1 {
            let r = pick_spread(k, next % 2 == 1, rng);
            assert(ordinary_drawn(
                self.distributions,
                *k,
                before,
                rng.handed(),
                coin as int,
                next as int,
                r,
            ));
            r
        } else {
            let bits: u64 = float_restrict_and_redraw(k, next, &self.distributions);
            let r = if k.validate(&FloatValue { bits, order: 0 }) {
                Some(bits)
            } else {
                None
            };
            assert(redrawn(self.distributions, *k, (next as int) as u64, bits));
            assert(ordinary_drawn(
                self.distributions,
                *k,
                before,
                rng.handed(),
                coin as int,
                next as int,
                r,
            ));
            r
        }
    }

    /// A floating-point value of the kind, of a category that is chosen by its
    /// weight, or an ordinary one where the range has nothing to offer there.
    pub fn biased_float_sample(
        &self,
        k: FloatChoice,
        width: FloatWidth,
        rng: &mut EngineRng,
        params: FloatGenerationParameters,
    ) -> (r: Result<FloatValue, InternalError>)
        requires
            float_kind_ok(k),
        ensures
            r matches Ok(v) && float_fits(k, v) && may_be_drawn(k, width, params, v.bits)
                && float_outcome(
                self.distributions,
                k,
                width,
                params,
                old(rng).handed(),
                final(rng).handed(),
                v,
            ),
    {
        let ghost before = rng.handed();
        let u: u64 = rng.unit();
        let category = float_category_of(u, &params);
        let first = self.float_of_category(&k, width, category, rng);
        let ghost middle = rng.handed();
        let drawn = match first {
            Some(bits) => Some(bits),
            None => self.ordinary_float(&k, rng),
        };
        let v = match drawn {
            Some(bits) => FloatValue { bits, order: float_order(bits) },
            None => k.simplest,
        };
        proof {
            let coin = choose|coin: int| #[trigger]
                category_drawn(self.distributions, k, width, category, before.push(u as int), middle, coin, first);
            assert(category_drawn(
                self.distributions,
                k,
                width,
                category,
                before.push(u as int),
                middle,
                coin,
                first,
            ));
            assert(falls_through(self.distributions, k, middle, rng.handed(), first, drawn));
            assert(float_drawn(
                self.distributions,
                k,
                width,
                params,
                before,
                middle,
                rng.handed(),
                u as int,
                v,
            ));
        }
        assert(bits_fit(k, v.bits));
        assert(selects(params.numbers(), u as int, category) && may_come_of(
            k,
            width,
            category,
            v.bits,
        ));
        Ok(v)
    }
}

} // verus!
