//! Floating-point values: which are asked for, and which of them come out.
use super::alphabets::float_step;
use super::has_room_for;
use super::is_random;
use super::is_simplest;
use super::numbers::float_place;
use super::replays;
use crate::choices::float_fits;
use crate::choices::float_magnitude;
use crate::choices::FloatChoice;
use crate::choices::FloatValue;
use crate::choices::ValueView;
use crate::errors::EngineError;
use crate::errors::InternalError;
use crate::family::FamilyCore;
use crate::float_categories::category_band;
use crate::float_categories::is_edge;
use crate::float_categories::is_near_one;
use crate::float_categories::is_numeral_of;
use crate::float_categories::magnitude_in;
use crate::float_draws::float_requested;
use crate::float_draws::generate_float;
use crate::float_draws::has_fallbacks;
use crate::float_draws::requested_kind;
use crate::float_grids::at_width;
use crate::float_grids::normalised;
use crate::float_grids::numeral;
use crate::float_grids::FloatWidth;
use crate::float_sampling::bits_fit;
use crate::float_weights::FloatCategory;
use crate::float_weights::FloatGenerationParameters;
use crate::floats::FloatArithmetic;
use crate::floats::FloatBounds;
use crate::floats::FloatFault;
use crate::floats::FloatSpec;
use crate::rng::EngineRng;
use crate::sampling::float_kind_ok;
use crate::sampling::Distributions;
use crate::sampling::Sampler;
use crate::test_case::DataObserver;
use crate::test_case::NativeTestCase;
use vstd::arithmetic::power2::lemma2_to64;
use vstd::arithmetic::power2::lemma_pow2_pos;
use vstd::arithmetic::power2::lemma_pow2_unfold;
use vstd::arithmetic::power2::pow2;
use vstd::prelude::*;

verus! {

/// Whether bits are those of a finite number.
pub open spec fn is_finite_float(bits: u64) -> bool {
    bits as int % 0x8000_0000_0000_0000 < 0x7ff0_0000_0000_0000
}

/// Whether bits are those of no number.
pub open spec fn is_no_number(bits: u64) -> bool {
    bits as int % 0x8000_0000_0000_0000 > 0x7ff0_0000_0000_0000
}

/// A request for values of full precision has the bounds that it names, or the next value
/// inwards where one is to be left out. It is refused where a bound is no number, where
/// the smallest magnitude is not positive and finite, where what is no number or infinite
/// is allowed but the bounds leave it out, and where the range is empty.
pub proof fn lemma_float_requests_are_checked(
    spec: FloatSpec,
    r: Result<FloatBounds, FloatFault>,
)
    requires
        call_ensures(FloatSpec::bounds, (spec,), r),
        spec.width == 64,
    ensures
        r is Ok ==> {
            let b = r->Ok_0;
            &&& !is_no_number(spec.min_bits) && !is_no_number(spec.max_bits)
            &&& 0 < spec.smallest_magnitude_bits < 0x7ff0_0000_0000_0000
            &&& spec.allow_nan ==> !is_finite_float(spec.min_bits) && !is_finite_float(
                spec.max_bits,
            )
            &&& spec.allow_infinity ==> !is_finite_float(spec.min_bits) || !is_finite_float(
                spec.max_bits,
            )
            &&& float_place(b.min_bits) <= float_place(b.max_bits)
            &&& !spec.exclude_min ==> b.min_bits == spec.min_bits
            &&& !spec.exclude_max ==> b.max_bits == spec.max_bits
            &&& spec.exclude_min && float_place(spec.min_bits) < 0x7ff0_0000_0000_0000
                ==> float_place(b.min_bits) == float_place(spec.min_bits) + 1
            &&& spec.exclude_max && float_place(spec.max_bits) > -0x7ff0_0000_0000_0000
                ==> float_place(b.max_bits) == float_place(spec.max_bits) - 1
        },
        !spec.allow_nan && !spec.allow_infinity && !spec.exclude_min && !spec.exclude_max
            && !is_no_number(spec.min_bits) && !is_no_number(spec.max_bits) && 0
            < spec.smallest_magnitude_bits < 0x7ff0_0000_0000_0000 ==> (r is Ok <==> float_place(
            spec.min_bits,
        ) <= float_place(spec.max_bits)),
{
}

/// The magnitudes of full precision that a category stands for, by their exponents: the
/// subnormal ones have none, those near zero lie from there to below one tenth, those
/// near the largest have the largest exponent, and the squares of those in the middle of
/// either half come near the largest and the smallest.
pub proof fn lemma_float_categories_are_bands(category: FloatCategory, m: u64, r: Option<(u64, u64)>)
    requires
        call_ensures(category_band, (FloatWidth::F64, category), r),
    ensures
        ({
            let exponent = m as int / 0x10_0000_0000_0000;
            let within = r is Some && r->Some_0.0 <= m <= r->Some_0.1;
            &&& category is Subnormal ==> (within <==> m > 0 && exponent == 0)
            &&& category is NearZero ==> (within <==> exponent >= 1 && m < 0x3fb9_9999_9999_999a)
            &&& category is NearMaxForAdd ==> (within <==> exponent == 2046)
            &&& category is NearMaxForMul ==> (within <==> 1534 <= exponent <= 1535)
            &&& category is NearSqrtMinPositive ==> (within <==> 511 <= exponent <= 512)
            &&& category is MaxMagnitude ==> (within <==> m == 0x7fef_ffff_ffff_ffff)
            &&& category is MaxExactInteger ==> (within <==> m == 1076 * 0x10_0000_0000_0000)
        }),
{
}

/// A value of a category fits its kind, and is what the category says: no number,
/// infinite, zero, or subnormal. A zero, or what is no number, is found where one fits.
pub proof fn lemma_floats_are_of_their_category<D: Distributions>(
    sampler: &Sampler<D>,
    k: &FloatChoice,
    category: FloatCategory,
    before: EngineRng,
    r: Option<u64>,
)
    requires
        exists|m: &mut EngineRng| #[trigger]
            call_ensures(
                Sampler::<D>::float_of_category,
                (sampler, k, FloatWidth::F64, category, m),
                r,
            ) && *m == before,
    ensures
        r matches Some(bits) ==> {
            let m = bits as int % 0x8000_0000_0000_0000;
            let smallest = k.smallest_magnitude_bits as int % 0x8000_0000_0000_0000;
            &&& m > 0x7ff0_0000_0000_0000 ==> k.allow_nan
            &&& m == 0x7ff0_0000_0000_0000 ==> k.allow_infinity
            &&& m <= 0x7ff0_0000_0000_0000 ==> float_step(k.min_bits) <= float_step(bits)
                <= float_step(k.max_bits)
            &&& 0 < m <= 0x7ff0_0000_0000_0000 ==> m >= smallest
            &&& category is Nan ==> is_no_number(bits)
            &&& category is Infinity ==> m == 0x7ff0_0000_0000_0000
            &&& category is SignedZero ==> m == 0
            &&& category is Subnormal ==> 0 < m < 0x10_0000_0000_0000
            &&& category is MaxMagnitude ==> m == 0x7fef_ffff_ffff_ffff
            &&& category is MaxExactInteger ==> m == 1076 * 0x10_0000_0000_0000
        },
        category is Nan && k.allow_nan ==> r is Some,
        category is SignedZero && float_step(k.min_bits) <= 0 <= float_step(k.max_bits) ==> r
            is Some,
{
    assert(k.allow_nan ==> bits_fit(*k, 0x7ff8_0000_0000_0000) && magnitude_in(
        FloatWidth::F64,
        FloatCategory::Nan,
        float_magnitude(0x7ff8_0000_0000_0000),
    ));
    assert(float_step(k.min_bits) <= 0 <= float_step(k.max_bits) ==> bits_fit(*k, 0)
        && magnitude_in(FloatWidth::F64, FloatCategory::SignedZero, float_magnitude(0)));
}

/// A floating-point value that is sampled fits its kind.
pub proof fn lemma_sampled_floats<D: Distributions>(
    sampler: &Sampler<D>,
    k: FloatChoice,
    width: FloatWidth,
    before: EngineRng,
    params: FloatGenerationParameters,
    r: Result<FloatValue, InternalError>,
)
    requires
        exists|m: &mut EngineRng| #[trigger]
            call_ensures(
                Sampler::<D>::biased_float_sample,
                (sampler, k, width, m, params),
                r,
            ) && *m == before,
        float_kind_ok(k),
    ensures
        r is Ok,
        ({
            let m = r->Ok_0.bits as int % 0x8000_0000_0000_0000;
            let smallest = k.smallest_magnitude_bits as int % 0x8000_0000_0000_0000;
            &&& m > 0x7ff0_0000_0000_0000 ==> k.allow_nan
            &&& m == 0x7ff0_0000_0000_0000 ==> k.allow_infinity
            &&& m <= 0x7ff0_0000_0000_0000 ==> float_step(k.min_bits) <= float_step(r->Ok_0.bits)
                <= float_step(k.max_bits)
            &&& 0 < m <= 0x7ff0_0000_0000_0000 ==> m >= smallest
        }),
{
}

/// A value of full precision that is asked for is what is replayed, where that lies in the
/// range that the request names and is not too small. One that chance decides lies there
/// too, unless it is one that the request allows besides.
pub proof fn lemma_requested_floats_are_as_chosen<
    D: Distributions,
    O: DataObserver,
    F: FloatArithmetic,
>(
    tc: NativeTestCase<D, O>,
    family: FamilyCore,
    spec: FloatSpec,
    simplest: FloatValue,
    unit: FloatValue,
    arithmetic: &F,
    v: FloatValue,
    r: Result<FloatValue, EngineError>,
)
    requires
        exists|m: &mut NativeTestCase<D, O>, f: &mut FamilyCore| #[trigger]
            call_ensures(
                generate_float::<D, O, F>,
                (m, f, spec, simplest, unit, arithmetic),
                r,
            ) && *m == tc && *f == family,
        has_fallbacks(spec, simplest, unit),
        has_room_for(tc, family, 1),
        spec.width == 64,
        !spec.exclude_min,
        !spec.exclude_max,
    ensures
        is_no_number(spec.min_bits) || is_no_number(spec.max_bits) || float_place(spec.min_bits)
            > float_place(spec.max_bits) ==> r is Err,
        !is_no_number(spec.min_bits) && !is_no_number(spec.max_bits) && float_place(spec.min_bits)
            <= float_place(spec.max_bits) && !spec.allow_nan && !spec.allow_infinity && 0
            < spec.smallest_magnitude_bits < 0x7ff0_0000_0000_0000 ==> {
            let fits = lies_in(spec, v.bits);
            &&& fits && replays(tc, 0, ValueView::Float(v)) ==> r == Ok::<FloatValue, EngineError>(
                v,
            )
            &&& is_simplest(tc) ==> r == Ok::<FloatValue, EngineError>(simplest)
            &&& is_random(tc) ==> r is Ok && lies_in(spec, r->Ok_0.bits)
        },
{
    let k = requested_kind(spec, simplest, unit);
    let fine = spec.fault() is None;
    lemma_fault_of_full_precision(spec);
    if fine {
        lemma_range_of_request(k, spec, v);
        lemma_range_of_request(k, spec, r->Ok_0);
        let (m, f, drawn) = choose|
            m: NativeTestCase<D, O>,
            f: FamilyCore,
            drawn: Result<FloatValue, EngineError>,
        | #[trigger] float_requested(*arithmetic, m, tc, family, f, spec, k, drawn, r);
        assert(r == drawn);
    }
}

/// What is wrong with a request for full precision whose bounds belong to its range.
proof fn lemma_fault_of_full_precision(spec: FloatSpec)
    requires
        spec.width == 64,
        !spec.exclude_min,
        !spec.exclude_max,
    ensures
        is_no_number(spec.min_bits) || is_no_number(spec.max_bits) || float_place(spec.min_bits)
            > float_place(spec.max_bits) ==> spec.fault() is Some,
        !is_no_number(spec.min_bits) && !is_no_number(spec.max_bits) && float_place(spec.min_bits)
            <= float_place(spec.max_bits) && !spec.allow_nan && !spec.allow_infinity && 0
            < spec.smallest_magnitude_bits < 0x7ff0_0000_0000_0000 ==> spec.fault() is None,
{
}

/// What fits the kind of a request lies in its range.
proof fn lemma_range_of_request(k: FloatChoice, spec: FloatSpec, v: FloatValue)
    requires
        spec.width == 64,
        !spec.exclude_min,
        !spec.exclude_max,
        spec.fault() is None,
        k == requested_kind(spec, k.simplest, k.unit),
    ensures
        !spec.allow_nan && !spec.allow_infinity && 0 < spec.smallest_magnitude_bits
            < 0x7ff0_0000_0000_0000 ==> (float_fits(k, v) <==> lies_in(spec, v.bits)),
{
}

/// Whether a finite value lies in the range that a request names, and is zero or not too
/// small.
pub open spec fn lies_in(spec: FloatSpec, bits: u64) -> bool {
    let m = bits as int % 0x8000_0000_0000_0000;
    &&& m < 0x7ff0_0000_0000_0000
    &&& float_step(spec.min_bits) <= float_step(bits) <= float_step(spec.max_bits)
    &&& m == 0 || m >= spec.smallest_magnitude_bits
}

/// A significand that is doubled until it has fifty-three digits is the fraction of a
/// magnitude, with as many less for its exponent.
proof fn lemma_doubled_significand(significand: int, exponent: int, doublings: nat)
    requires
        0 < significand,
        0x10_0000_0000_0000 <= significand * pow2(doublings) < 0x20_0000_0000_0000,
    ensures
        normalised(significand, exponent) == (exponent - doublings) * 0x10_0000_0000_0000
            + significand * pow2(doublings) - 0x10_0000_0000_0000,
    decreases doublings,
{
    lemma2_to64();
    if doublings > 0 {
        lemma_pow2_unfold(doublings);
        lemma_pow2_pos((doublings - 1) as nat);
        let half = pow2((doublings - 1) as nat) as int;
        assert(significand * (2 * half) == (2 * significand) * half) by (nonlinear_arith);
        assert(2 * significand <= (2 * significand) * half) by (nonlinear_arith)
            requires
                half >= 1,
                significand > 0,
        ;
        lemma_doubled_significand(2 * significand, exponent - 1, (doublings - 1) as nat);
    } else {
        assert(significand * pow2(0) == significand);
    }
}

/// A significand of up to fifty-three digits can be doubled until it has as many.
proof fn lemma_some_doublings(significand: int) -> (doublings: nat)
    requires
        0 < significand < 0x20_0000_0000_0000,
    ensures
        0x10_0000_0000_0000 <= significand * pow2(doublings) < 0x20_0000_0000_0000,
    decreases 0x20_0000_0000_0000 - significand,
{
    lemma2_to64();
    if significand >= 0x10_0000_0000_0000 {
        assert(significand * pow2(0) == significand);
        0
    } else {
        let rest = lemma_some_doublings(2 * significand);
        lemma_pow2_unfold(rest + 1);
        let half = pow2(rest) as int;
        assert(significand * (2 * half) == (2 * significand) * half) by (nonlinear_arith);
        rest + 1
    }
}

/// Whether a magnitude is a significand times a power of two: the significand, doubled some
/// times, is its fraction, and its exponent is as many less.
pub open spec fn is_significand(m: int, significand: int, exponent: int, doublings: nat) -> bool {
    &&& significand * pow2(doublings) == 0x10_0000_0000_0000 + m % 0x10_0000_0000_0000
    &&& m / 0x10_0000_0000_0000 == exponent - doublings
}

/// A value near one lies between one half and one and a half. A whole number, or half of an
/// odd one, has no digits beyond, and is at most the largest up to which there are all. At
/// the edge of a binade it is a power of two or the value just below one. Each of them is
/// found where one fits.
pub proof fn lemma_floats_of_a_category_are_found<D: Distributions>(
    sampler: &Sampler<D>,
    k: &FloatChoice,
    category: FloatCategory,
    before: EngineRng,
    r: Option<u64>,
    c: u64,
    n: int,
    doublings: nat,
)
    requires
        exists|m: &mut EngineRng| #[trigger]
            call_ensures(
                Sampler::<D>::float_of_category,
                (sampler, k, FloatWidth::F64, category, m),
                r,
            ) && *m == before,
        0 < c < 0x7ff0_0000_0000_0000,
    ensures
        r matches Some(bits) ==> {
            let m = bits as int % 0x8000_0000_0000_0000;
            &&& category is NearOne ==> 0x3fe0_0000_0000_0000 < m < 0x3ff8_0000_0000_0000
            &&& category is BinadeEdge ==> m % 0x10_0000_0000_0000 == 0 || (m + 1)
                % 0x10_0000_0000_0000 == 0
            &&& category is Integer ==> m == 1076 * 0x10_0000_0000_0000 || exists|x: int, d: nat|
                1 <= x < 0x20_0000_0000_0000 && #[trigger] is_significand(m, x, 1075, d)
            &&& category is HalfInteger ==> exists|x: int, d: nat|
                1 <= x < 0x20_0000_0000_0000 && x % 2 == 1 && #[trigger] is_significand(
                    m,
                    x,
                    1074,
                    d,
                )
        },
        float_step(k.min_bits) <= c <= float_step(k.max_bits) && c
            >= k.smallest_magnitude_bits as int % 0x8000_0000_0000_0000 ==> {
            &&& category is NearOne && 0x3fe0_0000_0000_0000 < c < 0x3ff8_0000_0000_0000 ==> r
                is Some
            &&& category is BinadeEdge && c % 0x10_0000_0000_0000 == 0 ==> r is Some
            &&& category is Integer && c == 1076 * 0x10_0000_0000_0000 ==> r is Some
            &&& category is Integer && 1 <= n < 0x20_0000_0000_0000 && is_significand(
                c as int,
                n,
                1075,
                doublings,
            ) ==> r is Some
            &&& category is HalfInteger && 1 <= n < 0x20_0000_0000_0000 && n % 2 == 1
                && is_significand(c as int, n, 1074, doublings) ==> r is Some
        },
{
    let width = FloatWidth::F64;
    if r is Some {
        let m = r->Some_0 as int % 0x8000_0000_0000_0000;
        if category is Integer {
            let x = choose|x: int|
                is_numeral_of(width, false, x) && #[trigger] numeral(false, x) == m;
            if x < 0x20_0000_0000_0000 {
                let d = lemma_some_doublings(x);
                lemma_doubled_significand(x, 1075, d);
                assert(is_significand(m, x, 1075, d));
            }
        }
        if category is HalfInteger {
            let x = choose|x: int| is_numeral_of(width, true, x) && #[trigger] numeral(true, x) == m;
            let d = lemma_some_doublings(2 * x + 1);
            lemma_doubled_significand(2 * x + 1, 1074, d);
            assert(is_significand(m, 2 * x + 1, 1074, d));
        }
    }
    if float_step(k.min_bits) <= c <= float_step(k.max_bits) && c >= k.smallest_magnitude_bits as int
        % 0x8000_0000_0000_0000 {
        assert(float_magnitude(c) == c);
        assert(bits_fit(*k, c));
        if category is NearOne && 0x3fe0_0000_0000_0000 < c < 0x3ff8_0000_0000_0000 {
            assert(is_near_one(width, c as int) && at_width(width, c as int) == c);
            assert(magnitude_in(width, category, float_magnitude(c)));
        }
        if category is BinadeEdge && c % 0x10_0000_0000_0000 == 0 {
            assert(is_edge(width, c as int) && at_width(width, c as int) == c);
            assert(magnitude_in(width, category, float_magnitude(c)));
        }
        if category is Integer && c == 1076 * 0x10_0000_0000_0000 {
            assert(is_numeral_of(width, false, 0x20_0000_0000_0000));
            assert(numeral(false, 0x20_0000_0000_0000) == c);
            assert(magnitude_in(width, category, float_magnitude(c)));
        }
        if category is Integer && 1 <= n < 0x20_0000_0000_0000 && is_significand(
            c as int,
            n,
            1075,
            doublings,
        ) {
            lemma_doubled_significand(n, 1075, doublings);
            assert(is_numeral_of(width, false, n) && numeral(false, n) == c);
            assert(magnitude_in(width, category, float_magnitude(c)));
        }
        if category is HalfInteger && 1 <= n < 0x20_0000_0000_0000 && n % 2 == 1 && is_significand(
            c as int,
            n,
            1074,
            doublings,
        ) {
            let x = n / 2;
            assert(n == 2 * x + 1);
            lemma_doubled_significand(n, 1074, doublings);
            assert(is_numeral_of(width, true, x) && numeral(true, x) == c);
            assert(magnitude_in(width, category, float_magnitude(c)));
        }
    }
}

} // verus!
