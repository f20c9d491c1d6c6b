//! Categories of floating-point values, each drawn on its own.

use hegel::choices::{FloatChoice, FloatValue, Probability, PROBABILITY_ONE};
use hegel::float_categories::{category_band, endpoint_candidates, non_dyadic_bits, side_of};
use hegel::float_grids::{indices_within, numeral_bits, numerals_within, ratio_bits, FloatWidth};
use hegel::float_restriction::{float_restrict_and_redraw, restrict};
use hegel::float_weights::{
    float_category_of, FloatCategory, FloatGenerationParameters, GenerationParameters,
};
use hegel::floats::FloatArithmetic;
use hegel::integer_constants::IntegerPools;
use hegel::rng::EngineRng;
use hegel::sampling::{Distributions, IntegerGenerationParameters, Sampler};
use hegel::text_constants::TextPool;

const ENDPOINT: usize = 0;
const NEAR_ZERO: usize = 1;
const SUBNORMAL: usize = 2;
const NEAR_ONE: usize = 3;
const INTEGER: usize = 4;
const HALF_INTEGER: usize = 5;
const NEAR_MAX_FOR_ADD: usize = 6;
const NEAR_MAX_FOR_MUL: usize = 7;
const NEAR_SQRT_MIN_POSITIVE: usize = 8;
const NAN: usize = 9;
const INFINITY: usize = 10;
const MAX_MAGNITUDE: usize = 11;
const MAX_EXACT_INTEGER: usize = 12;
const SIGNED_ZERO: usize = 13;
const BINADE_EDGE: usize = 14;
const NON_DYADIC: usize = 15;
const DEFAULT: usize = 16;
const N_CATEGORIES: usize = 17;

const F32_MAX: f64 = f32::MAX as f64;
const F32_MIN_POSITIVE: f64 = f32::MIN_POSITIVE as f64;
const F32_MIN_SUBNORMAL: f64 = f32::from_bits(1) as f64;
const F32_MANTISSA_MASK: u32 = (1u32 << 23) - 1;
const FLOAT_MANTISSA_MASK: u64 = (1u64 << 52) - 1;
const TWO_53: f64 = 9007199254740992.0;
const TWO_24: f64 = 16777216.0;
const INF: f64 = f64::INFINITY;
const NEG_INF: f64 = f64::NEG_INFINITY;

type Pred<'a> = &'a dyn Fn(f64) -> bool;

/// A category's expected shape on the unbounded range: a membership
/// predicate every draw satisfies, a predicate at least `min` draws reach,
/// and values that must each be drawn.
type Shape<'a> = (usize, Pred<'a>, Pred<'a>, usize, &'a [f64]);

/// Chances for tests: even where a real distribution would be lopsided.
#[derive(Clone, Copy)]
struct Even;

impl FloatArithmetic for Even {
    fn float_step(&self, bits: u64, up: bool) -> u64 {
        let v = f64::from_bits(bits);
        if up { v + 1.0 } else { v - 1.0 }.to_bits()
    }

    fn float_between(&self, min: u64, max: u64, share: u64) -> u64 {
        let (min, max) = (f64::from_bits(min), f64::from_bits(max));
        let share = share as f64 / ((1u64 << 52) - 1) as f64;
        (min + (max - min).min(f64::MAX) * share).to_bits()
    }

    fn float_text(&self, bits: u64) -> String {
        format!("{}", f64::from_bits(bits))
    }
}

impl Distributions for Even {
    fn tells_apart(&self, min: i128, max: i128) -> bool {
        let _ = (min, max);
        false
    }

    fn middle_integer(&self, min: i128, max: i128, share: u64) -> i128 {
        let _ = (max, share);
        min
    }

    fn extra_length(&self, min_size: usize, max_size: usize, share: u64) -> usize {
        let _ = (min_size, max_size, share);
        0
    }
}

fn usual() -> FloatGenerationParameters {
    FloatGenerationParameters::from_weights([PROBABILITY_ONE / 17; N_CATEGORIES])
}

fn sampler() -> Sampler<Even> {
    let nothing = Probability { numerator: 0 };
    Sampler {
        integers: IntegerPools::new(),
        texts: TextPool::new(),
        boundary: nothing,
        curated_min_width: 1 << 8,
        weights: GenerationParameters {
            integer: IntegerGenerationParameters {
                endpoint: nothing,
                interesting: nothing,
                diffuse: nothing,
            },
            float: usual(),
        },
        distributions: Even,
    }
}

fn value(v: f64) -> FloatValue {
    FloatValue { bits: v.to_bits(), order: 0 }
}

fn choice(min: f64, max: f64) -> FloatChoice {
    let fallback = if min <= 0.0 && max >= 0.0 {
        if min.to_bits() == (-0.0f64).to_bits() || max.to_bits() == (-0.0f64).to_bits() {
            -0.0
        } else {
            0.0
        }
    } else if min > 0.0 {
        min
    } else {
        max
    };
    FloatChoice {
        min_bits: min.to_bits(),
        max_bits: max.to_bits(),
        allow_nan: false,
        allow_infinity: false,
        smallest_magnitude_bits: 5e-324f64.to_bits(),
        simplest: value(fallback),
        unit: value(fallback),
    }
}

fn unbounded() -> FloatChoice {
    FloatChoice {
        allow_nan: true,
        allow_infinity: true,
        ..choice(NEG_INF, INF)
    }
}

fn half_bounded(min: f64, max: f64) -> FloatChoice {
    FloatChoice {
        allow_infinity: true,
        ..choice(min, max)
    }
}

fn with_snm(fc: FloatChoice, snm: f64) -> FloatChoice {
    FloatChoice {
        smallest_magnitude_bits: snm.to_bits(),
        ..fc
    }
}

/// All the mass on one category, so a draw exercises exactly that sampler
/// or, when it has nothing valid to offer, the fall-through to the default
/// draw.
fn only(category: usize) -> FloatGenerationParameters {
    let mut weights = [0; N_CATEGORIES];
    weights[category] = PROBABILITY_ONE;
    FloatGenerationParameters::from_weights(weights)
}

fn draws_at(
    fc: &FloatChoice,
    width: FloatWidth,
    params: FloatGenerationParameters,
    seed: u64,
    n: usize,
) -> Vec<f64> {
    assert!(fc.validate(&fc.simplest), "no fallback for {fc:?}");
    let sampler = sampler();
    let mut rng = EngineRng::seeded(seed);
    (0..n)
        .map(|_| {
            let v = sampler.biased_float_sample(*fc, width, &mut rng, params).unwrap();
            assert!(fc.validate(&v), "{v:?} is invalid for {fc:?}");
            f64::from_bits(v.bits)
        })
        .collect()
}

fn category_draws_at(fc: &FloatChoice, width: FloatWidth, category: usize) -> Vec<f64> {
    draws_at(fc, width, only(category), 1000 + category as u64, 2000)
}

fn category_draws(fc: &FloatChoice, category: usize) -> Vec<f64> {
    category_draws_at(fc, FloatWidth::F64, category)
}

fn float_pow2(exponent: i32) -> f64 {
    2.0f64.powi(exponent)
}

fn float_mantissa(v: f64) -> u64 {
    v.to_bits() & FLOAT_MANTISSA_MASK
}

/// Whether `v` is exactly representable as an `f32`.
fn is_f32(v: f64) -> bool {
    f64::from(v as f32) == v
}

fn seen(vs: &[f64], target: f64) -> bool {
    vs.iter().any(|v| v.to_bits() == target.to_bits())
}

fn assert_exactly_set(vs: &[f64], set: &[f64]) {
    for v in vs {
        assert!(
            set.iter().any(|s| s.to_bits() == v.to_bits()),
            "{v:?} is not one of {set:?}"
        );
    }
    for s in set {
        assert!(seen(vs, *s), "{s:?} never drawn");
    }
}

fn band(width: FloatWidth, category: FloatCategory) -> (f64, f64) {
    let (lo, hi) = category_band(width, category).unwrap();
    (f64::from_bits(lo), f64::from_bits(hi))
}

fn in_band(v: f64, (lo, hi): (f64, f64)) -> bool {
    v.abs() >= lo && v.abs() <= hi
}

fn f32_mantissa(v: f64) -> u32 {
    (v as f32).to_bits() & F32_MANTISSA_MASK
}

fn f32_binade_edge(v: f64) -> bool {
    let mantissa = f32_mantissa(v);
    is_f32(v) && ((mantissa == 0 && (v as f32).is_normal()) || mantissa == F32_MANTISSA_MASK)
}

fn f64_binade_edge(v: f64) -> bool {
    let mantissa = float_mantissa(v);
    (mantissa == 0 && v.is_normal()) || mantissa == FLOAT_MANTISSA_MASK
}

fn all_choices() -> Vec<FloatChoice> {
    vec![
        unbounded(),
        choice(NEG_INF, INF),
        choice(-f64::MAX, f64::MAX),
        choice(0.0, 1.0),
        choice(-1.0, 1.0),
        choice(100.0, 200.0),
        choice(-200.0, -100.0),
        choice(0.05, 10.0),
        choice(0.2, 0.8),
        choice(0.75, 1.25),
        choice(1.0, 4.0),
        with_snm(choice(-1.0, 1.0), 1e-3),
        with_snm(choice(-100.0, 100.0), 10.0),
        choice(f64::from(f32::MIN), F32_MAX),
        half_bounded(NEG_INF, 0.0),
        half_bounded(1.0, INF),
        half_bounded(NEG_INF, -1e300),
        choice(-0.0, 0.0),
        choice(-0.0, -0.0),
        choice(3.5, 3.5),
        choice(1e300, f64::MAX),
        choice(5e-324, 5e-324),
        choice(float_pow2(-1022) / 1e12, float_pow2(-1022) / 1e3),
    ]
}

/// Weights that are random and add up to no more than the whole.
fn random_weights(rng: &mut EngineRng) -> FloatGenerationParameters {
    let mut weights = [0; N_CATEGORIES];
    for w in &mut weights {
        *w = rng.unit() / N_CATEGORIES as u64;
    }
    FloatGenerationParameters::from_weights(weights)
}

#[test]
fn every_category_stays_valid_on_every_range() {
    for fc in all_choices() {
        for width in [FloatWidth::F64, FloatWidth::F32] {
            for category in 0..N_CATEGORIES {
                draws_at(&fc, width, only(category), 7 + category as u64, 300);
            }
            draws_at(&fc, width, usual(), 99, 300);
            let mut rng = EngineRng::seeded(5);
            for _ in 0..50 {
                let params = random_weights(&mut rng);
                draws_at(&fc, width, params, 6, 20);
            }
        }
    }
}

/// A category with a handful of landmarks draws exactly the ones the range
/// and width admit; a singleton range draws its value from every category.
#[test]
fn bounded_ranges_draw_exactly_the_landmarks() {
    let (f32_width, f64_width) = (FloatWidth::F32, FloatWidth::F64);
    let down = |v: f64| v.next_down();
    let down32 = |v: f32| f64::from(v.next_down());
    let f32_range = choice(f64::from(f32::MIN), F32_MAX);
    let rows: &[(usize, FloatWidth, FloatChoice, Vec<f64>)] = &[
        (ENDPOINT, f64_width, unbounded(), vec![INF, NEG_INF, f64::MAX, -f64::MAX]),
        (ENDPOINT, f32_width, unbounded(), vec![INF, NEG_INF, F32_MAX, -F32_MAX]),
        (ENDPOINT, f64_width, choice(0.0, 1.0), vec![0.0, 1.0, 5e-324, down(1.0)]),
        (ENDPOINT, f32_width, choice(0.0, 1.0), vec![0.0, 1.0, F32_MIN_SUBNORMAL, down32(1.0)]),
        (
            ENDPOINT,
            f64_width,
            choice(100.0, 200.0),
            vec![100.0, 200.0, 100.0f64.next_up(), 101.0, 199.0, down(200.0)],
        ),
        (INTEGER, f64_width, choice(0.0, 10.0), (1..=10).map(f64::from).collect()),
        (INTEGER, f64_width, choice(-3.0, 0.5), vec![-1.0, -2.0, -3.0]),
        (HALF_INTEGER, f64_width, choice(0.0, 3.0), vec![0.5, 1.5, 2.5]),
        (HALF_INTEGER, f64_width, choice(-2.0, 0.6), vec![0.5, -0.5, -1.5]),
        (INFINITY, f64_width, unbounded(), vec![INF, NEG_INF]),
        (INFINITY, f64_width, half_bounded(1.0, INF), vec![INF]),
        (INFINITY, f64_width, half_bounded(NEG_INF, 0.0), vec![NEG_INF]),
        (MAX_MAGNITUDE, f64_width, unbounded(), vec![f64::MAX, -f64::MAX]),
        (MAX_MAGNITUDE, f32_width, unbounded(), vec![F32_MAX, -F32_MAX]),
        (MAX_MAGNITUDE, f32_width, f32_range, vec![F32_MAX, -F32_MAX]),
        (MAX_EXACT_INTEGER, f64_width, unbounded(), vec![TWO_53, -TWO_53]),
        (MAX_EXACT_INTEGER, f32_width, unbounded(), vec![TWO_24, -TWO_24]),
        (MAX_EXACT_INTEGER, f32_width, choice(0.0, 1e8), vec![TWO_24]),
        (SIGNED_ZERO, f64_width, unbounded(), vec![0.0, -0.0]),
        (SIGNED_ZERO, f64_width, choice(0.0, 1.0), vec![0.0]),
        (SIGNED_ZERO, f64_width, choice(-1.0, -0.0), vec![-0.0]),
        (BINADE_EDGE, f64_width, choice(1.0, 4.0), vec![1.0, 2.0, 4.0, down(2.0), down(4.0)]),
        (BINADE_EDGE, f64_width, choice(-8.0, -3.0), vec![-4.0, -8.0, -down(4.0), -down(8.0)]),
        (BINADE_EDGE, f64_width, choice(2.0, 2.0), vec![2.0]),
        (BINADE_EDGE, f32_width, choice(1.0, 4.0), vec![1.0, 2.0, 4.0, down32(2.0), down32(4.0)]),
    ];
    for (category, width, fc, set) in rows {
        assert_exactly_set(&category_draws_at(fc, *width, *category), set);
    }
    for category in 0..N_CATEGORIES {
        assert_exactly_set(&category_draws(&choice(3.5, 3.5), category), &[3.5]);
    }
    assert!(
        !category_draws(&choice(0.0, 1e8), MAX_EXACT_INTEGER)
            .iter()
            .all(|&v| v == TWO_24),
        "an f64 draw offered f32's landmark"
    );
}

/// A band category keeps to the part of its band the range admits, a sign
/// the range rules out yields to the other side rather than falling through
/// to the default, and a category the range excludes outright never shows.
#[test]
fn bounded_ranges_keep_the_category_in_its_band() {
    let (f32_width, f64_width) = (FloatWidth::F32, FloatWidth::F64);
    let rows: &[(usize, FloatWidth, FloatChoice, Pred<'_>)] = &[
        (NEAR_ZERO, f64_width, choice(0.05, 10.0), &|v| (0.05..0.1).contains(&v)),
        (NEAR_ONE, f64_width, choice(0.0, 1.0), &|v| v > 0.5 && v <= 1.0),
        (NEAR_ONE, f64_width, choice(1.0, 2.0), &|v| (1.0..1.5).contains(&v)),
        (NEAR_ONE, f64_width, choice(-1.0, -0.75), &|v| (-1.0..=-0.75).contains(&v)),
        (NEAR_ONE, f64_width, choice(-2.0, 0.25), &|v| v > -1.5 && v < -0.5),
        (NEAR_ONE, f32_width, choice(0.0, 1.0), &|v| is_f32(v) && v > 0.5 && v <= 1.0),
        (NEAR_MAX_FOR_ADD, f64_width, choice(-f64::MAX, 0.5), &|v| v <= -float_pow2(127)),
        (NEAR_MAX_FOR_MUL, f64_width, choice(-f64::MAX, 0.5), &|v| v <= -float_pow2(63)),
        (NEAR_MAX_FOR_MUL, f64_width, choice(-0.5, 1e300), &|v| v >= float_pow2(63)),
        (NAN, f64_width, choice(0.0, 1.0), &|v| !v.is_nan()),
        (BINADE_EDGE, f64_width, choice(0.0, 1e-310), &|v| v == 0.0 || v.is_subnormal()),
        (NON_DYADIC, f64_width, choice(0.0, 1.0), &|v| v > 0.0 && v < 1.0 && v != v.trunc()),
        (NON_DYADIC, f64_width, choice(-1.0, -0.5), &|v| (-1.0..=-0.5).contains(&v)),
        (NON_DYADIC, f64_width, choice(100.0, 200.0), &|v| (100.0..=200.0).contains(&v)),
        (DEFAULT, f64_width, with_snm(choice(-1.0, 1.0), 0.5), &|v| v == 0.0 || v.abs() >= 0.5),
    ];
    for (category, width, fc, admitted) in rows {
        for v in category_draws_at(fc, *width, *category) {
            assert!(admitted(v), "category {category} drew {v:e} on {fc:?}");
        }
    }
    assert!(
        category_draws(&choice(100.0, 200.0), NON_DYADIC)
            .iter()
            .any(|&v| v > 101.0),
        "non-dyadic values were not fitted to the range"
    );
}

/// Every draw of each category on the unbounded range at `width` fits its
/// [`Shape`], and both signs come up.
fn check_shapes(width: FloatWidth, rows: &[Shape<'_>]) {
    for (category, member, reaches, min, must_see) in rows {
        let vs = category_draws_at(&unbounded(), width, *category);
        for &v in &vs {
            assert!(member(v), "category {category} drew {v:e} at {width:?}");
        }
        assert!(
            vs.iter().any(|v| v.is_sign_negative()) && vs.iter().any(|v| v.is_sign_positive()),
            "category {category} stayed on one sign"
        );
        let reaching = vs.iter().filter(|&&v| reaches(v)).count();
        assert!(
            reaching >= *min,
            "category {category}: only {reaching} of {} draws reached",
            vs.len()
        );
        for &s in *must_see {
            assert!(seen(&vs, s), "category {category} never drew {s:e}");
        }
    }
}

/// The spread categories are log-uniform over their binades, so small
/// values (1, 2, 0.5, 1e-150) come up as often as the huge ones a uniform
/// draw would produce almost exclusively.
#[test]
fn unbounded_draws_have_each_category_shape() {
    let any: Pred<'_> = &|_| true;
    let (up, down) = (1.0f64.next_up(), 1.0f64.next_down());
    let add = band(FloatWidth::F64, FloatCategory::NearMaxForAdd);
    let mul = band(FloatWidth::F64, FloatCategory::NearMaxForMul);
    let sqrt = band(FloatWidth::F64, FloatCategory::NearSqrtMinPositive);
    let in_add = |v: f64| in_band(v, add) && (v + v).is_infinite();
    let in_mul = |v: f64| in_band(v, mul);
    let in_sqrt = |v: f64| in_band(v, sqrt);
    let rows: &[Shape<'_>] = &[
        (
            NEAR_ZERO,
            &|v| v != 0.0 && v.abs() < 0.1 && !v.is_subnormal(),
            &|v| v.abs() < 1e-100,
            250,
            &[],
        ),
        (SUBNORMAL, &|v| v.is_subnormal(), any, 0, &[]),
        (
            NEAR_ONE,
            &|v| v.abs() > 0.5 && v.abs() < 1.5,
            &|v| v.abs() < 1.0,
            250,
            &[1.0, -1.0, up, down, -up, -down],
        ),
        (
            INTEGER,
            &|v| v == v.trunc() && v != 0.0 && v.abs() <= TWO_53,
            &|v| v.abs() < 1000.0,
            250,
            &[1.0, -1.0],
        ),
        (
            HALF_INTEGER,
            &|v| v.fract().abs() == 0.5 && v.abs() < TWO_53 / 2.0,
            &|v| v.abs() < 1000.0,
            250,
            &[0.5, -0.5],
        ),
        (NEAR_MAX_FOR_ADD, &in_add, any, 0, &[]),
        (NEAR_MAX_FOR_MUL, &in_mul, any, 0, &[]),
        (NEAR_SQRT_MIN_POSITIVE, &in_sqrt, any, 0, &[]),
        (NAN, &|v| v.is_nan(), &|v| float_mantissa(v) != 1 << 51, 250, &[]),
        (INFINITY, &|v| v.is_infinite(), any, 0, &[]),
        (MAX_MAGNITUDE, &|v| v.abs() == f64::MAX, any, 0, &[]),
        (MAX_EXACT_INTEGER, &|v| v.abs() == TWO_53, any, 0, &[]),
        (SIGNED_ZERO, &|v| v == 0.0, any, 0, &[]),
        (
            BINADE_EDGE,
            &f64_binade_edge,
            &|v| float_mantissa(v) == FLOAT_MANTISSA_MASK,
            250,
            &[],
        ),
        (
            NON_DYADIC,
            &|v| v.is_finite() && v.abs() <= 101.0 && v != v.trunc(),
            &|v| (v * 100.0).fract() != 0.0,
            250,
            &[],
        ),
        (DEFAULT, any, &|v| v != 0.0 && v.abs() < 1e-200, 120, &[]),
    ];
    check_shapes(FloatWidth::F64, rows);
}

/// At `f32` width every category is steered to `f32`'s own landmarks: its
/// subnormals, its `MAX`, `2^24`, and its overflow and underflow bands.
#[test]
fn f32_width_steers_to_f32_landmarks() {
    let any: Pred<'_> = &|_| true;
    let (up, down) = (f64::from(1.0f32.next_up()), f64::from(1.0f32.next_down()));
    let add = band(FloatWidth::F32, FloatCategory::NearMaxForAdd);
    let mul = band(FloatWidth::F32, FloatCategory::NearMaxForMul);
    let sqrt = band(FloatWidth::F32, FloatCategory::NearSqrtMinPositive);
    let in_add = |v: f64| in_band(v, add) && (v + v).is_finite();
    let in_mul = |v: f64| in_band(v, mul);
    let in_sqrt = |v: f64| in_band(v, sqrt);
    let rows: &[Shape<'_>] = &[
        (
            NEAR_ZERO,
            &|v| v.abs() >= F32_MIN_POSITIVE && v.abs() < 0.1,
            &|v| v.abs() < 1e-20,
            250,
            &[],
        ),
        (
            SUBNORMAL,
            &|v| v.abs() >= F32_MIN_SUBNORMAL && v.abs() < F32_MIN_POSITIVE,
            &|v| !v.is_subnormal(),
            2000,
            &[],
        ),
        (
            NEAR_ONE,
            &|v| is_f32(v) && v.abs() > 0.5 && v.abs() < 1.5,
            any,
            0,
            &[1.0, -1.0, up, down, -up, -down],
        ),
        (
            INTEGER,
            &|v| v == v.trunc() && v != 0.0 && v.abs() <= TWO_24,
            &|v| v.abs() == TWO_24,
            1,
            &[],
        ),
        (
            HALF_INTEGER,
            &|v| is_f32(v) && v.fract().abs() == 0.5 && v.abs() < TWO_24 / 2.0,
            any,
            0,
            &[],
        ),
        (
            NEAR_MAX_FOR_ADD,
            &in_add,
            &|v| (v as f32 + v as f32).is_infinite(),
            2000,
            &[],
        ),
        (NEAR_MAX_FOR_MUL, &in_mul, any, 0, &[]),
        (NEAR_SQRT_MIN_POSITIVE, &in_sqrt, any, 0, &[]),
        (
            BINADE_EDGE,
            &f32_binade_edge,
            &|v| f32_mantissa(v) == F32_MANTISSA_MASK,
            250,
            &[],
        ),
    ];
    check_shapes(FloatWidth::F32, rows);
}

#[test]
fn overflow_and_underflow_bands_make_pairs_misbehave() {
    let (f32_width, f64_width) = (FloatWidth::F32, FloatWidth::F64);
    let rows: &[(usize, FloatWidth, &dyn Fn(f64, f64) -> bool)] = &[
        (NEAR_MAX_FOR_MUL, f64_width, &|a, b| (a * b).is_infinite()),
        (NEAR_MAX_FOR_MUL, f32_width, &|a, b| (a as f32 * b as f32).is_infinite()),
        (NEAR_SQRT_MIN_POSITIVE, f64_width, &|a, b| (a * b).is_subnormal()),
        (NEAR_SQRT_MIN_POSITIVE, f32_width, &|a, b| (a as f32 * b as f32).is_subnormal()),
    ];
    for (category, width, misbehaves) in rows {
        let vs = category_draws_at(&unbounded(), *width, *category);
        let n = vs.windows(2).filter(|w| misbehaves(w[0], w[1])).count();
        assert!(
            n > 300 && n < vs.len() - 300,
            "category {category} at {width:?}: {n} of {} pairs",
            vs.len()
        );
    }
}

/// The default is a coin flip between the continuous uniform and the
/// log-uniform, so a bounded range shows both an ordinary middle and a
/// spread over its small scales, reaching all the way down to the deep
/// binades far below the top bound.
#[test]
fn default_draw_is_half_uniform_half_log_uniform() {
    let vs = category_draws(&choice(0.0, 10.0), DEFAULT);
    let share =
        |pred: Pred<'_>| vs.iter().filter(|&&v| pred(v)).count() as f64 / vs.len() as f64;
    let tiny = share(&|v| v < 1e-6);
    assert!(
        (0.35..0.6).contains(&tiny),
        "{tiny} of default draws on [0, 10] were below 1e-6; expected nearly all of \
         the log-uniform half"
    );
    let deep = share(&|v| v != 0.0 && v < 1e-100);
    assert!(
        deep > 0.1,
        "{deep} of default draws on [0, 10] were below 1e-100; the log-uniform half \
         must reach the deep binades under a finite bound"
    );
    let upper = share(&|v| v > 5.0);
    assert!(
        (0.15..0.35).contains(&upper),
        "{upper} of default draws on [0, 10] were above 5; expected about half of the \
         uniform half"
    );

    let vs = category_draws(&choice(1e-8, 2e4), DEFAULT);
    let below_one = vs.iter().filter(|&&v| v < 1.0).count() as f64 / vs.len() as f64;
    assert!((0.25..0.5).contains(&below_one), "{below_one}");
    let vs = category_draws(&choice(-1.0, 1.0), DEFAULT);
    assert!(vs.iter().filter(|&&v| v != 0.0 && v.abs() < 1e-10).count() > 150);
}

/// A category the range rules out sends its mass to the default draw, not
/// to the next category in weight order. On `[0.3, 0.45]`, inside one
/// binade, both halves of the default are a plain uniform, so the
/// fall-through shows as the right mean and no collapse onto a few values.
#[test]
fn unavailable_category_falls_through_to_the_default() {
    let fc = choice(0.3, 0.45);
    for category in (0..DEFAULT).filter(|c| ![ENDPOINT, NON_DYADIC].contains(c)) {
        let vs = category_draws(&fc, category);
        let mean = vs.iter().sum::<f64>() / vs.len() as f64;
        assert!(
            (mean - 0.375).abs() < 0.01,
            "category {category}: mean {mean}"
        );
        let distinct: std::collections::HashSet<u64> = vs.iter().map(|v| v.to_bits()).collect();
        assert!(
            distinct.len() > 1900,
            "category {category}: {}",
            distinct.len()
        );
    }
}

#[test]
fn category_weights_control_the_mix() {
    let mut weights = [0; N_CATEGORIES];
    weights[NAN] = PROBABILITY_ONE / 4;
    weights[SIGNED_ZERO] = PROBABILITY_ONE / 4;
    weights[DEFAULT] = PROBABILITY_ONE / 2;
    let vs = draws_at(
        &unbounded(),
        FloatWidth::F64,
        FloatGenerationParameters::from_weights(weights),
        4,
        20_000,
    );
    let nan = vs.iter().filter(|v| v.is_nan()).count() as f64 / vs.len() as f64;
    let zero = vs.iter().filter(|&&v| v == 0.0).count() as f64 / vs.len() as f64;
    assert!((nan - 0.25).abs() < 0.03, "{nan}");
    assert!((zero - 0.25).abs() < 0.03, "{zero}");
}

#[test]
fn default_weights_surface_every_category_on_the_unbounded_range() {
    let vs = draws_at(&unbounded(), FloatWidth::F64, usual(), 11, 20_000);
    let checks: [(&str, Pred<'_>); 9] = [
        ("nan", &|v| v.is_nan()),
        ("infinite", &|v| v.is_infinite()),
        ("zero", &|v| v == 0.0),
        ("subnormal", &|v| v.is_subnormal()),
        ("near ±1", &|v| v.abs() != 1.0 && (v.abs() - 1.0).abs() < 1e-9),
        ("half integer", &|v| v.is_finite() && v.fract().abs() == 0.5),
        ("top binade", &|v| v.is_finite() && v.abs() >= float_pow2(1023)),
        ("max exact integer", &|v| v.abs() == TWO_53 || v.abs() == TWO_24),
        ("tiny", &|v| v != 0.0 && v.abs() < 1e-200),
    ];
    for (name, pred) in checks {
        let r = vs.iter().filter(|&&v| pred(v)).count() as f64 / vs.len() as f64;
        assert!(r > 0.01, "{name} rate {r:.4}");
    }
}

#[test]
fn weights_take_up_stretches_in_order() {
    let mut weights = [0; N_CATEGORIES];
    weights[NEAR_ZERO] = 10;
    weights[NAN] = 5;
    let params = FloatGenerationParameters::from_weights(weights);
    assert_eq!(float_category_of(0, &params), FloatCategory::NearZero);
    assert_eq!(float_category_of(9, &params), FloatCategory::NearZero);
    assert_eq!(float_category_of(10, &params), FloatCategory::Nan);
    assert_eq!(float_category_of(14, &params), FloatCategory::Nan);
    assert_eq!(float_category_of(15, &params), FloatCategory::Ordinary);
    assert_eq!(float_category_of(PROBABILITY_ONE - 1, &params), FloatCategory::Ordinary);
    for place in 0..N_CATEGORIES {
        let category = FloatCategory::at(place);
        assert_eq!(float_category_of(0, &only(place)), category);
        assert_eq!(float_category_of(PROBABILITY_ONE - 1, &only(place)), category);
    }
    assert_eq!(FloatCategory::at(99), FloatCategory::Ordinary);
    assert_eq!(params.weights(), weights);
}

#[test]
fn all_weights_can_be_listed() {
    let parameters = sampler().weights;
    let numbers = parameters.to_numbers();
    assert_eq!(numbers[..3], [0, 0, 0]);
    assert_eq!(numbers[3..], [PROBABILITY_ONE / 17; 17]);
    assert_eq!(GenerationParameters::from_numbers(numbers), parameters);
}

#[test]
fn sides_of_a_range() {
    let one = 1.0f64.to_bits();
    let max = f64::MAX.to_bits();
    assert_eq!(side_of(&choice(-1.0, 2.0), false), (1, 2.0f64.to_bits()));
    assert_eq!(side_of(&choice(-1.0, 2.0), true), (1, one));
    assert_eq!(side_of(&choice(1.0, INF), false), (one, max));
    assert_eq!(side_of(&choice(1.0, INF), true), (1, 0));
    assert_eq!(side_of(&choice(-2.0, -1.0), true), (one, 2.0f64.to_bits()));
    assert_eq!(side_of(&with_snm(choice(-1.0, 2.0), 0.5), true), (0.5f64.to_bits(), one));
}

#[test]
fn numbers_have_their_bits() {
    for n in [1u64, 2, 3, 10, 1 << 52, (1 << 53) - 1, 1 << 53] {
        assert_eq!(numeral_bits(false, n), (n as f64).to_bits());
    }
    for n in [0u64, 1, 2, 7, 1 << 30, (1 << 52) - 1] {
        assert_eq!(numeral_bits(true, n), (n as f64 + 0.5).to_bits());
    }
    let within = numerals_within(false, 1, 100, 2.5f64.to_bits(), 5.0f64.to_bits());
    assert_eq!(within, Some((3, 5)));
    assert_eq!(numerals_within(true, 0, 100, 2.6f64.to_bits(), 3.0f64.to_bits()), None);
}

#[test]
fn quotients_are_rounded_to_the_nearest() {
    for (n, d) in [(1u64, 3u64), (1, 10), (2, 3), (7, 9), (999, 10), (1, 199), (100, 7)] {
        assert_eq!(ratio_bits(n, d), (n as f64 / d as f64).to_bits());
    }
    assert_eq!(non_dyadic_bits(0, 1, 5, true), Some(0.1f64.to_bits()));
    assert_eq!(non_dyadic_bits(0, 5, 5, true), None);
    assert_eq!(non_dyadic_bits(2, 1, 3, false), Some((7.0f64 / 3.0).to_bits()));
}

#[test]
fn singles_within_a_range() {
    let (from, to) = indices_within(FloatWidth::F32, 1.0f64.to_bits(), 2.0f64.to_bits());
    assert_eq!((from, to), (u64::from(1.0f32.to_bits()), u64::from(2.0f32.to_bits())));
    let inside = 1.0f64.next_up().to_bits();
    let (from, to) = indices_within(FloatWidth::F32, inside, 1.0f64.next_up().next_up().to_bits());
    assert!(from > to);
}

#[test]
fn ends_of_a_range_at_single_width() {
    let kind = choice(0.0, 1.0);
    let (step_up, step_down) = (1.0f64.to_bits(), 0.0f64.to_bits());
    let found: Vec<f64> = endpoint_candidates(&kind, FloatWidth::F32, step_up, step_down)
        .iter()
        .map(|&b| f64::from_bits(b))
        .collect();
    let below = f64::from(1.0f32.next_down());
    assert_eq!(found, [0.0, 1.0, F32_MIN_SUBNORMAL, 1.0, 0.0, below]);
}

#[test]
fn float_restrict_and_redraw_reroutes_excluded_magnitude_band() {
    let fc = with_snm(choice(-1e-307, 1e-307), f64::MIN_POSITIVE);
    let raw = ((1u64 << 52) - 1) / 2;
    let clamped = f64::from_bits(float_restrict_and_redraw(&fc, raw, &Even));
    assert_eq!(clamped, f64::MIN_POSITIVE);

    let fc_neg = with_snm(choice(-1e-307, -1e-308), f64::MIN_POSITIVE);
    let raw_neg = (((1u64 << 52) - 1) / 10) * 9;
    let clamped_neg = f64::from_bits(float_restrict_and_redraw(&fc_neg, raw_neg, &Even));
    assert_eq!(clamped_neg, -f64::MIN_POSITIVE);
}

#[test]
fn float_restrict_and_redraw_with_infinite_bounds_stays_finite() {
    let fc = with_snm(unbounded(), f64::from(f32::from_bits(1)));
    for raw in [5e-324, 1e-100, -3e-320, f64::from_bits(12345)] {
        let clamped = f64::from_bits(float_restrict_and_redraw(&fc, raw.to_bits(), &Even));
        assert!(
            clamped.is_finite(),
            "float_restrict_and_redraw({raw:e}) produced {clamped}"
        );
    }
}

#[test]
fn restriction_keeps_what_fits() {
    let fc = with_snm(choice(-1.0, 2.0), 0.5);
    let restricted = |v: f64| f64::from_bits(restrict(&fc, v.to_bits()));
    assert_eq!(restricted(0.75), 0.75);
    assert_eq!(restricted(0.0), 0.0);
    assert_eq!(restricted(0.25), 0.5);
    assert_eq!(restricted(-0.25), 0.5);
    assert_eq!(restricted(3.0), 2.0);
    assert_eq!(restricted(NEG_INF), -1.0);
    assert_eq!(restricted(f64::NAN), -1.0);
}
