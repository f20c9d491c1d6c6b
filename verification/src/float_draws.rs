//! Draws of floating-point values: a request is checked, its range is made out,
//! and a value of the binary32 format is rounded to it.

use crate::choices::FloatChoice;
use crate::choices::FloatValue;
use crate::choices::KindView;
use crate::choices::ValueView;
use crate::choices::FLOAT_INFINITY_BITS;
use crate::draws::complains;
use crate::draws::draw_float_of_kind;
use crate::draws::float_drawn;
use crate::errors::EngineError;
use crate::family::FamilyCore;
use crate::float_grids::FloatWidth;
use crate::float_order::float_order;
use crate::float_order::place_of;
use crate::float_restriction::finite_max;
use crate::float_restriction::finite_min;
use crate::float_restriction::float_restrict_and_redraw;
use crate::float_restriction::lemma_restriction_stays_in_range;
use crate::float_restriction::redrawn;
use crate::float_restriction::restricted;
use crate::float_rounding::lemma_finite_singles_are_bounded;
use crate::float_rounding::lemma_largest_is_single;
use crate::float_rounding::lemma_rounded_is_single;
use crate::float_rounding::lemma_rounded_stays_between;
use crate::float_rounding::round_to_single;
use crate::float_rounding::rounded;
use crate::floats::fault_message;
use crate::floats::fault_text;
use crate::floats::is_below;
use crate::floats::is_finite;
use crate::floats::is_nan;
use crate::floats::is_single;
use crate::floats::is_single_number;
use crate::floats::lemma_widened_bounds;
use crate::floats::place;
use crate::floats::single_above;
use crate::floats::single_below;
use crate::floats::single_of;
use crate::floats::widened;
use crate::floats::FloatArithmetic;
use crate::floats::FloatBounds;
use crate::floats::FloatFault;
use crate::floats::FloatSpec;
use crate::floats::SIGN_BIT;
use crate::floats::SINGLE_MAX_BITS;
use crate::replay::lemma_draws_fit;
use crate::sampling::float_kind_ok;
use crate::sampling::Distributions;
use crate::test_case::DataObserver;
use crate::test_case::NativeTestCase;
use vstd::prelude::*;

verus! {

/// The smaller bound of the finite binary32 values of a range.
pub open spec fn finite_least(min_bits: u64) -> u64 {
    if place(min_bits) < -SINGLE_MAX_BITS {
        (SIGN_BIT + SINGLE_MAX_BITS) as u64
    } else {
        min_bits
    }
}

/// The larger bound of the finite binary32 values of a range.
pub open spec fn finite_greatest(max_bits: u64) -> u64 {
    if place(max_bits) > SINGLE_MAX_BITS {
        SINGLE_MAX_BITS
    } else {
        max_bits
    }
}

/// The kind with the finite binary32 values of its range.
pub open spec fn finite_singles(k: FloatChoice) -> FloatChoice {
    FloatChoice {
        min_bits: finite_least(k.min_bits),
        max_bits: finite_greatest(k.max_bits),
        allow_nan: false,
        allow_infinity: false,
        ..k
    }
}

/// Whether a binary32 value of a range is what a value of it comes to. A value that
/// is too large to be rounded gives way to another of the range, as its digits tell.
pub open spec fn narrowed<F: FloatArithmetic>(
    arithmetic: F,
    k: FloatChoice,
    bits: u64,
    r: u64,
) -> bool {
    if is_finite(rounded(bits)) {
        r == rounded(bits)
    } else {
        exists|other: u64| #[trigger]
            redrawn(arithmetic, finite_singles(k), bits, other) && r == rounded(other)
    }
}

/// Rounds a finite value of a range to the binary32 format.
///
/// A value beyond the largest one of that format would become infinite. Another
/// value of the range stands in for it, so that large values stay as frequent
/// as they were.
pub fn narrow_to_f32<F: FloatArithmetic>(kind: FloatChoice, bits: u64, arithmetic: &F) -> (r: u64)
    ensures
        narrowed(*arithmetic, kind, bits, r),
        is_single(r),
{
    let single: u64 = round_to_single(bits);
    if single % SIGN_BIT < FLOAT_INFINITY_BITS {
        return single;
    }
    let least: u64 = if is_below(kind.min_bits, SIGN_BIT + SINGLE_MAX_BITS) {
        SIGN_BIT + SINGLE_MAX_BITS
    } else {
        kind.min_bits
    };
    let greatest: u64 = if is_below(SINGLE_MAX_BITS, kind.max_bits) {
        SINGLE_MAX_BITS
    } else {
        kind.max_bits
    };
    let finite = FloatChoice {
        min_bits: least,
        max_bits: greatest,
        allow_nan: false,
        allow_infinity: false,
        ..kind
    };
    let other: u64 = float_restrict_and_redraw(&finite, bits, arithmetic);
    assert(finite == finite_singles(kind));
    assert(redrawn(*arithmetic, finite_singles(kind), bits, other));
    round_to_single(other)
}

/// A finite value of a range with binary32 bounds comes to a finite binary32
/// value of that range.
pub proof fn lemma_narrowing_stays_in_range<F: FloatArithmetic>(
    arithmetic: F,
    k: FloatChoice,
    bits: u64,
    r: u64,
)
    requires
        narrowed(arithmetic, k, bits, r),
        is_single(k.min_bits),
        is_single(k.max_bits),
        !is_nan(k.min_bits),
        !is_nan(k.max_bits),
        place(k.min_bits) <= place(bits) <= place(k.max_bits),
        is_finite(bits),
    ensures
        place(k.min_bits) <= place(r) <= place(k.max_bits),
        is_finite(r),
        is_single(r),
{
    lemma_rounded_is_single(bits);
    let (min_bits, max_bits) = (k.min_bits, k.max_bits);
    lemma_rounded_stays_between(bits, min_bits, max_bits);
    lemma_largest_is_single();
    let (lowest, largest) = ((SIGN_BIT + SINGLE_MAX_BITS) as u64, SINGLE_MAX_BITS);
    let (least, greatest) = (finite_least(min_bits), finite_greatest(max_bits));
    if !is_finite(rounded(bits)) {
        if place(lowest) <= place(bits) <= place(largest) {
            lemma_rounded_stays_between(bits, lowest, largest);
        }
        if is_finite(min_bits) {
            lemma_finite_singles_are_bounded(min_bits);
        }
        if is_finite(max_bits) {
            lemma_finite_singles_are_bounded(max_bits);
        }
        let finite = finite_singles(k);
        let other = choose|other: u64| #[trigger]
            redrawn(arithmetic, finite, bits, other) && r == rounded(other);
        assert(redrawn(arithmetic, finite, bits, other));
        let raw = choose|raw: u64| #[trigger]
            call_ensures(
                F::float_between,
                (
                    &arithmetic,
                    finite_min(finite.min_bits),
                    finite_max(finite.max_bits),
                    (bits % 0x10_0000_0000_0000) as u64,
                ),
                raw,
            ) && other == restricted(finite, raw);
        lemma_restriction_stays_in_range(finite, raw);
        lemma_rounded_stays_between(other, least, greatest);
        lemma_rounded_is_single(other);
    }
}

/// The kind that a request without fault asks for, with the values that it falls
/// back on.
pub open spec fn requested_kind(
    spec: FloatSpec,
    simplest: FloatValue,
    unit: FloatValue,
) -> FloatChoice {
    FloatChoice {
        min_bits: spec.least(),
        max_bits: spec.greatest(),
        allow_nan: spec.allow_nan,
        allow_infinity: spec.allow_infinity,
        smallest_magnitude_bits: spec.smallest_magnitude_bits,
        simplest,
        unit,
    }
}

/// Whether the values to fall back on answer a request, where nothing is wrong
/// with it.
pub open spec fn has_fallbacks(spec: FloatSpec, simplest: FloatValue, unit: FloatValue) -> bool {
    spec.fault() is None ==> float_kind_ok(requested_kind(spec, simplest, unit))
}

/// The kind that a request with the given range asks for.
fn kind_between(
    spec: FloatSpec,
    bounds: FloatBounds,
    simplest: FloatValue,
    unit: FloatValue,
) -> (r: FloatChoice)
    requires
        bounds == (FloatBounds { min_bits: spec.least(), max_bits: spec.greatest() }),
    ensures
        r == requested_kind(spec, simplest, unit),
{
    FloatChoice {
        min_bits: bounds.min_bits,
        max_bits: bounds.max_bits,
        allow_nan: spec.allow_nan,
        allow_infinity: spec.allow_infinity,
        smallest_magnitude_bits: spec.smallest_magnitude_bits,
        simplest,
        unit,
    }
}

/// Whether the values to fall back on answer a request, where nothing is wrong
/// with it.
pub fn fallbacks_fit(spec: FloatSpec, simplest: FloatValue, unit: FloatValue) -> (r: bool)
    ensures
        r == has_fallbacks(spec, simplest, unit),
{
    match spec.bounds() {
        Ok(bounds) => {
            let kind = kind_between(spec, bounds, simplest, unit);
            kind.validate(&kind.simplest) && kind.validate(&kind.unit)
        },
        Err(_) => true,
    }
}

/// Whether a value is what a value that was drawn comes to in the format of
/// the request.
pub open spec fn float_settled<F: FloatArithmetic>(
    arithmetic: F,
    spec: FloatSpec,
    k: FloatChoice,
    drawn: Result<FloatValue, EngineError>,
    r: Result<FloatValue, EngineError>,
) -> bool {
    match drawn {
        Err(e) => r == Err::<FloatValue, EngineError>(e),
        Ok(v) => r matches Ok(w) && if spec.width == 32 && is_finite(v.bits) {
            &&& w.order == place_of(w.bits)
            &&& narrowed(arithmetic, k, v.bits, w.bits)
        } else {
            w == v
        },
    }
}

/// The format of a request without fault.
pub open spec fn format_of(spec: FloatSpec) -> FloatWidth {
    if spec.width == 32 {
        FloatWidth::F32
    } else {
        FloatWidth::F64
    }
}

/// Whether a kind was drawn from, and what came of it.
pub open spec fn float_requested<D: Distributions, O: DataObserver, F: FloatArithmetic>(
    arithmetic: F,
    new: NativeTestCase<D, O>,
    old: NativeTestCase<D, O>,
    family: FamilyCore,
    new_family: FamilyCore,
    spec: FloatSpec,
    k: FloatChoice,
    drawn: Result<FloatValue, EngineError>,
    r: Result<FloatValue, EngineError>,
) -> bool {
    &&& float_drawn(new, old, family, new_family, format_of(spec), k, drawn)
    &&& float_settled(arithmetic, spec, k, drawn, r)
}

/// The bounds that the message of a fault gives.
pub open spec fn faulty_bounds(spec: FloatSpec, fault: FloatFault) -> (u64, u64) {
    match fault {
        FloatFault::EmptyRange(low, high) => (low, high),
        _ => (spec.min_bits, spec.max_bits),
    }
}

/// Whether a request was refused with the message of a fault, in which the bounds
/// and the smallest magnitude are written out as the arithmetic does.
pub open spec fn float_refused<F: FloatArithmetic>(
    arithmetic: F,
    spec: FloatSpec,
    fault: FloatFault,
    e: EngineError,
) -> bool {
    let (low, high) = faulty_bounds(spec, fault);
    exists|min: String, max: String, magnitude: String|
        {
            &&& #[trigger] call_ensures(F::float_text, (&arithmetic, low), min)
            &&& #[trigger] call_ensures(F::float_text, (&arithmetic, high), max)
            &&& #[trigger] call_ensures(
                F::float_text,
                (&arithmetic, spec.smallest_magnitude_bits),
                magnitude,
            )
            &&& complains(e, fault_text(fault, min@, max@, magnitude@))
        }
}

/// Whether a floating-point value was drawn as it was asked for, or the request
/// was refused with a message.
pub open spec fn float_generated<D: Distributions, O: DataObserver, F: FloatArithmetic>(
    arithmetic: F,
    new: NativeTestCase<D, O>,
    old: NativeTestCase<D, O>,
    family: FamilyCore,
    new_family: FamilyCore,
    spec: FloatSpec,
    simplest: FloatValue,
    unit: FloatValue,
    r: Result<FloatValue, EngineError>,
) -> bool {
    match spec.fault() {
        Some(fault) => {
            &&& r matches Err(e) && float_refused(arithmetic, spec, fault, e)
            &&& new == old
            &&& new_family == family
        },
        None => {
            let k = requested_kind(spec, simplest, unit);
            exists|drawn: Result<FloatValue, EngineError>|
                #[trigger] float_requested(
                    arithmetic,
                    new,
                    old,
                    family,
                    new_family,
                    spec,
                    k,
                    drawn,
                    r,
                )
        },
    }
}

/// Draws a floating-point value. The range falls back on `simplest`, and on
/// `unit` where that does not fit.
pub fn generate_float<D: Distributions, O: DataObserver, F: FloatArithmetic>(
    ntc: &mut NativeTestCase<D, O>,
    family: &mut FamilyCore,
    spec: FloatSpec,
    simplest: FloatValue,
    unit: FloatValue,
    arithmetic: &F,
) -> (r: Result<FloatValue, EngineError>)
    requires
        has_fallbacks(spec, simplest, unit),
    ensures
        float_generated(
            *arithmetic,
            *final(ntc),
            *old(ntc),
            *old(family),
            *final(family),
            spec,
            simplest,
            unit,
            r,
        ),
{
    let bounds = match spec.bounds() {
        Ok(bounds) => bounds,
        Err(fault) => {
            let (low, high): (u64, u64) = match fault {
                FloatFault::EmptyRange(low, high) => (low, high),
                _ => (spec.min_bits, spec.max_bits),
            };
            let min = arithmetic.float_text(low);
            let max = arithmetic.float_text(high);
            let magnitude = arithmetic.float_text(spec.smallest_magnitude_bits);
            let message = fault_message(fault, min.as_str(), max.as_str(), magnitude.as_str());
            let e = EngineError::InvalidArgument(message);
            assert(complains(e, fault_text(fault, min@, max@, magnitude@)));
            assert(float_refused(*arithmetic, spec, fault, e));
            return Err(e);
        },
    };
    let kind = kind_between(spec, bounds, simplest, unit);
    let width = if spec.width == 32 {
        FloatWidth::F32
    } else {
        FloatWidth::F64
    };
    let drawn = draw_float_of_kind(ntc, family, width, kind);
    let ghost first = drawn;
    let r = match drawn {
        Ok(v) => {
            if spec.width == 32 && v.bits % SIGN_BIT < FLOAT_INFINITY_BITS {
                let bits: u64 = narrow_to_f32(kind, v.bits, arithmetic);
                Ok(FloatValue { bits, order: float_order(bits) })
            } else {
                Ok(v)
            }
        },
        Err(e) => Err(e),
    };
    assert(float_settled(*arithmetic, spec, kind, first, r));
    assert(float_requested(
        *arithmetic,
        *ntc,
        *old(ntc),
        *old(family),
        *family,
        spec,
        kind,
        first,
        r,
    ));
    r
}

/// Whether a value answers a request.
pub open spec fn answers_request(spec: FloatSpec, bits: u64) -> bool {
    if is_nan(bits) {
        spec.allow_nan
    } else {
        &&& place(spec.least()) <= place(bits) <= place(spec.greatest())
        &&& !is_finite(bits) ==> spec.allow_infinity
        &&& spec.width == 32 && is_finite(bits) ==> is_single(bits)
    }
}

/// What a request gives answers it: a number of its range, exactly
/// representable in its format, NaN where that is allowed, and infinities where
/// they are.
pub proof fn lemma_generated_floats_answer<
    D: Distributions,
    O: DataObserver,
    F: FloatArithmetic,
>(
    arithmetic: F,
    new: NativeTestCase<D, O>,
    old: NativeTestCase<D, O>,
    family: FamilyCore,
    new_family: FamilyCore,
    spec: FloatSpec,
    simplest: FloatValue,
    unit: FloatValue,
    v: FloatValue,
)
    requires
        has_fallbacks(spec, simplest, unit),
        float_generated(arithmetic, new, old, family, new_family, spec, simplest, unit, Ok(v)),
    ensures
        spec.fault() is None,
        answers_request(spec, v.bits),
{
    let r = Ok::<FloatValue, EngineError>(v);
    let k = requested_kind(spec, simplest, unit);
    let drawn = choose|drawn: Result<FloatValue, EngineError>|
        #[trigger] float_requested(
            arithmetic,
            new,
            old,
            family,
            new_family,
            spec,
            k,
            drawn,
            r,
        );
    let w = drawn->Ok_0;
    assert(drawn == Ok::<FloatValue, EngineError>(w));
    lemma_draws_fit(new.within_span(old), old, family, KindView::Float(k), ValueView::Float(w));
    if spec.width == 32 {
        lemma_bounds_are_singles(spec);
        if is_finite(w.bits) {
            lemma_narrowing_stays_in_range(arithmetic, k, w.bits, v.bits);
        }
    }
}

/// The bounds of a request for binary32 values are binary32 values.
#[verifier::spinoff_prover]
#[verifier::rlimit(40)]
proof fn lemma_bounds_are_singles(spec: FloatSpec)
    requires
        spec.fault() is None,
        spec.width == 32,
    ensures
        is_single(spec.least()),
        is_single(spec.greatest()),
        !is_nan(spec.least()),
        !is_nan(spec.greatest()),
{
    lemma_largest_is_single();
    lemma_single_neighbours_are_singles(single_of(spec.min_bits));
    lemma_single_neighbours_are_singles(single_of(spec.max_bits));
}

/// The neighbours of a binary32 number are binary32 numbers.
proof fn lemma_single_neighbours_are_singles(single: u32)
    requires
        is_single_number(single),
    ensures
        is_single(widened(single_above(single))),
        is_single(widened(single_below(single))),
        !is_nan(widened(single_above(single))),
        !is_nan(widened(single_below(single))),
{
    assert(is_single_number(single_above(single)));
    assert(is_single_number(single_below(single)));
    lemma_widened_bounds(single_above(single) as int % 0x8000_0000);
    lemma_widened_bounds(single_below(single) as int % 0x8000_0000);
}

} // verus!
