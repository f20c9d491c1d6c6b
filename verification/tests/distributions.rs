//! How integers of wide ranges are spread, with a distribution that is heavy in
//! its tails.

use hegel::choices::{Probability, PROBABILITY_ONE};
use hegel::float_weights::{FloatGenerationParameters, GenerationParameters};
use hegel::floats::FloatArithmetic;
use hegel::integer_constants::IntegerPools;
use hegel::rng::EngineRng;
use hegel::sampling::{Distributions, IntegerGenerationParameters, Sampler};
use hegel::text_constants::TextPool;
use std::collections::HashSet;

/// An even core with tails in which the logarithm of a magnitude follows
/// Student's t distribution with two degrees of freedom.
#[derive(Clone, Copy)]
struct Piecewise;

const CORE: f64 = 256.0;

const SCALE_BITS: f64 = 13.0;

fn tail_cdf(x: f64) -> f64 {
    let t = libm::copysign(libm::log2(1.0 + x.abs()) / SCALE_BITS, x);
    0.5 + t / (2.0 * libm::sqrt(2.0 + t * t))
}

fn tail_inverse(p: f64) -> f64 {
    let t = (2.0 * p - 1.0) / libm::sqrt(2.0 * p * (1.0 - p));
    libm::copysign(libm::exp2(t.abs() * SCALE_BITS) - 1.0, t)
}

fn cdf(x: f64) -> f64 {
    let edge = tail_cdf(CORE);
    if x.abs() <= CORE {
        0.5 + (edge - 0.5) * (x / CORE)
    } else {
        tail_cdf(x)
    }
}

fn inverse_cdf(p: f64) -> f64 {
    let edge = tail_cdf(CORE);
    if (1.0 - edge..=edge).contains(&p) {
        (p - 0.5) / (edge - 0.5) * CORE
    } else {
        tail_inverse(p)
    }
}

impl FloatArithmetic for Piecewise {
    fn float_step(&self, bits: u64, up: bool) -> u64 {
        let v = f64::from_bits(bits);
        if up { v + 1.0 } else { v - 1.0 }.to_bits()
    }

    fn float_between(&self, min: u64, max: u64, share: u64) -> u64 {
        let (min, max) = (f64::from_bits(min), f64::from_bits(max));
        let share = share as f64 / ((1u64 << 52) - 1) as f64;
        (min + (max - min).min(f64::MAX) * share).to_bits()
    }

    fn float_text(&self, bits: u64) -> String {
        format!("{}", f64::from_bits(bits))
    }
}

impl Distributions for Piecewise {
    fn tells_apart(&self, min: i128, max: i128) -> bool {
        cdf(max as f64 + 0.5) - cdf(min as f64 - 0.5) >= 1e-13
    }

    fn middle_integer(&self, min: i128, max: i128, share: u64) -> i128 {
        let (lo, hi) = (cdf(min as f64 - 0.5), cdf(max as f64 + 0.5));
        let u = share as f64 / PROBABILITY_ONE as f64;
        let p = (lo + u * (hi - lo)).max(f64::MIN_POSITIVE);
        libm::round(inverse_cdf(p)) as i128
    }

    fn extra_length(&self, min_size: usize, max_size: usize, share: u64) -> usize {
        let _ = (min_size, max_size, share);
        0
    }
}

fn usual_weights() -> IntegerGenerationParameters {
    let chance = |p: f64| Probability { numerator: (p * PROBABILITY_ONE as f64) as u64 };
    IntegerGenerationParameters {
        endpoint: chance(0.025),
        interesting: chance(0.25),
        diffuse: chance(0.0375),
    }
}

fn sampler() -> Sampler<Piecewise> {
    Sampler {
        integers: IntegerPools::new(),
        texts: TextPool::new(),
        boundary: Probability { numerator: PROBABILITY_ONE / 100 },
        curated_min_width: 1 << 8,
        weights: GenerationParameters {
            integer: usual_weights(),
            float: FloatGenerationParameters::from_weights([PROBABILITY_ONE / 17; 17]),
        },
        distributions: Piecewise,
    }
}

fn swarm_samples(n: usize, min: i128, max: i128, seed: u64) -> Vec<i128> {
    let sampler = sampler();
    let mut rng = EngineRng::seeded(seed);
    (0..n)
        .map(|_| sampler.biased_i128_sample(min, max, &mut rng, usual_weights()).unwrap())
        .collect()
}

#[test]
fn biased_integer_sample_produces_diverse_magnitudes_unbounded() {
    let mut magnitudes: HashSet<i32> = HashSet::default();
    for v in swarm_samples(2000, i64::MIN as i128, i64::MAX as i128, 5) {
        let mag = if v == 0 {
            0
        } else {
            128 - v.unsigned_abs().leading_zeros() as i32
        };
        magnitudes.insert(mag);
    }
    assert!(
        magnitudes.len() >= 10,
        "expected >= 10 magnitude buckets, got {}",
        magnitudes.len()
    );
}

#[test]
fn biased_integer_sample_concentrates_around_zero_when_unbounded() {
    let total = 2000;
    let in_inner = swarm_samples(total, i64::MIN as i128, i64::MAX as i128, 6)
        .iter()
        .filter(|v| v.unsigned_abs() <= 256)
        .count();
    let fraction = in_inner as f64 / total as f64;
    assert!(
        fraction > 0.05,
        "only {fraction} fraction in [-256, 256]; piecewise distribution not active"
    );
}

#[test]
fn biased_integer_sample_log_skewed_bounded_range_favours_smaller_magnitudes() {
    let mut samples = swarm_samples(2000, 10_000, 10_000_000, 11);
    samples.sort();
    let median = samples[samples.len() / 2];
    assert!(
        median < 1_000_000,
        "median {median} is too high; expected log-skewed distribution"
    );
}

#[test]
fn middles_too_near_to_be_told_apart_are_even() {
    let far = 1i128 << 120;
    let vs = swarm_samples(200, far, far + 3, 12);
    for v in far..=far + 3 {
        assert!(vs.contains(&v));
    }
}
