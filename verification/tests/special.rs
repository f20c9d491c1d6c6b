//! Dates, times and identifiers.

use hegel::bignum::BigInt;
use hegel::choices::{ChoiceValue, Probability, PROBABILITY_ONE};
use hegel::civil::{civil_from_days, days_from_civil, days_in_month, time_to_ns, Date, DateTime, Time};
use hegel::collections::length_p_continue;
use hegel::errors::{EngineError};
use hegel::family::FamilyCore;
use hegel::float_weights::{FloatGenerationParameters, GenerationParameters};
use hegel::floats::FloatArithmetic;
use hegel::integer_constants::IntegerPools;
use hegel::rng::EngineRng;
use hegel::sampling::{Distributions, IntegerGenerationParameters, Sampler};
use hegel::special::{generate_date, generate_datetime, generate_time, generate_uuid};
use hegel::test_case::{NativeTestCase, NoObserver};
use hegel::text_constants::TextPool;
use std::sync::Arc;

/// Chances for tests: even where a real distribution would be lopsided.
#[derive(Clone, Copy)]
struct Even;

impl FloatArithmetic for Even {
    fn float_step(&self, bits: u64, up: bool) -> u64 {
        let v = f64::from_bits(bits);
        if up { v + 1.0 } else { v - 1.0 }.to_bits()
    }

    fn float_between(&self, min: u64, max: u64, share: u64) -> u64 {
        let (min, max) = (f64::from_bits(min), f64::from_bits(max));
        let share = share as f64 / ((1u64 << 52) - 1) as f64;
        (min + (max - min).min(f64::MAX) * share).to_bits()
    }

    fn float_text(&self, bits: u64) -> String {
        format!("{}", f64::from_bits(bits))
    }
}

impl Distributions for Even {
    fn tells_apart(&self, min: i128, max: i128) -> bool {
        let _ = (min, max);
        false
    }

    fn middle_integer(&self, min: i128, max: i128, share: u64) -> i128 {
        let _ = (max, share);
        min
    }

    fn extra_length(&self, min_size: usize, max_size: usize, share: u64) -> usize {
        let p = length_p_continue(min_size, Some(max_size)).numerator as f64
            / PROBABILITY_ONE as f64;
        let u = (share as f64 + 0.5) / PROBABILITY_ONE as f64;
        (u.ln() / p.ln()).floor() as usize
    }
}

/// How many choices a test case may make.
const BUFFER_SIZE: usize = 8192;

/// How deep streams may be cloned.
const CLONE_DEPTH: usize = 8;

fn chance(p: f64) -> Probability {
    Probability { numerator: (p * PROBABILITY_ONE as f64) as u64 }
}

fn weights(endpoint: f64, interesting: f64, diffuse: f64) -> IntegerGenerationParameters {
    IntegerGenerationParameters {
        endpoint: chance(endpoint),
        interesting: chance(interesting),
        diffuse: chance(diffuse),
    }
}

fn usual_weights() -> IntegerGenerationParameters {
    weights(0.025, 0.25, 0.0375)
}

fn usual_parameters() -> GenerationParameters {
    GenerationParameters {
        integer: usual_weights(),
        float: FloatGenerationParameters::from_weights([PROBABILITY_ONE / 17; 17]),
    }
}

fn sampler() -> Sampler<Even> {
    Sampler {
        integers: IntegerPools::new(),
        texts: TextPool::new(),
        boundary: chance(0.01),
        curated_min_width: 1 << 8,
        weights: usual_parameters(),
        distributions: Even,
    }
}

type Case = NativeTestCase<Even, NoObserver>;

/// A test case that draws at random.
fn new_random(seed: u64) -> (Case, FamilyCore) {
    NativeTestCase::new_random_with_params(
        EngineRng::seeded(seed),
        Arc::new(sampler()),
        usual_parameters(),
        BUFFER_SIZE,
        None,
        CLONE_DEPTH,
    )
}

/// A test case that replays choices.
fn for_choices(choices: &[ChoiceValue]) -> (Case, FamilyCore) {
    NativeTestCase::for_choices(choices, None, None, CLONE_DEPTH)
}

/// A test case that makes the simplest choices.
fn for_simplest(max_size: usize) -> (Case, FamilyCore) {
    NativeTestCase::for_simplest(max_size, None, CLONE_DEPTH).unwrap()
}

fn big(v: i128) -> BigInt {
    BigInt::from_i128(v)
}

fn date(year: i32, month: u8, day: u8) -> Date {
    Date { year, month, day }
}

fn time(hour: u8, minute: u8, second: u8, nanosecond: u32) -> Time {
    Time {
        hour,
        minute,
        second,
        nanosecond,
    }
}

const FULL_MIN_DATE: Date = Date {
    year: 1,
    month: 1,
    day: 1,
};
const FULL_MAX_DATE: Date = Date {
    year: 9999,
    month: 12,
    day: 31,
};
const MIDNIGHT: Time = Time {
    hour: 0,
    minute: 0,
    second: 0,
    nanosecond: 0,
};
const LAST_NANOSECOND: Time = Time {
    hour: 23,
    minute: 59,
    second: 59,
    nanosecond: 999_999_999,
};

#[test]
fn generate_date_produces_valid_dates() {
    for seed in 0..50 {
        let (mut ntc, mut family) = new_random(seed);
        let d = generate_date(&mut ntc, &mut family, FULL_MIN_DATE, FULL_MAX_DATE).unwrap();
        assert!((1..=9999).contains(&d.year), "year out of range: {d:?}");
        assert!((1..=12).contains(&d.month), "month out of range: {d:?}");
        assert!((1..=31).contains(&d.day), "day out of range: {d:?}");
    }
}

#[test]
fn generate_date_day_respects_month_length() {
    let mut seen_feb = false;
    for seed in 0..1000 {
        let (mut ntc, mut family) = new_random(seed);
        let d = generate_date(&mut ntc, &mut family, FULL_MIN_DATE, FULL_MAX_DATE).unwrap();
        if d.month == 2 {
            seen_feb = true;
            let is_leap = d.year % 4 == 0 && (d.year % 100 != 0 || d.year % 400 == 0);
            let max_day = if is_leap { 29 } else { 28 };
            assert!(d.day <= max_day, "Feb day {} in year {}", d.day, d.year);
        }
        if matches!(d.month, 4 | 6 | 9 | 11) {
            assert!(d.day <= 30, "31st in a 30-day month: {d:?}");
        }
    }
    assert!(seen_feb, "no February dates drawn across 1000 seeds");
}

#[test]
fn generate_time_covers_zero_and_nonzero_nanoseconds() {
    let mut seen_nanosecond_zero = false;
    let mut seen_nanosecond_nonzero = false;
    for seed in 0..1000 {
        let (mut ntc, mut family) = new_random(seed);
        let t = generate_time(&mut ntc, &mut family, MIDNIGHT, LAST_NANOSECOND).unwrap();
        assert!(t.hour <= 23 && t.minute <= 59 && t.second <= 59, "{t:?}");
        assert!(t.nanosecond <= 999_999_999, "{t:?}");
        if t.nanosecond == 0 {
            seen_nanosecond_zero = true;
        } else {
            seen_nanosecond_nonzero = true;
        }
    }
    assert!(
        seen_nanosecond_zero,
        "no zero-nanosecond times across 200 seeds"
    );
    assert!(
        seen_nanosecond_nonzero,
        "no nonzero-nanosecond times across 200 seeds"
    );
}

#[test]
fn generate_datetime_combines_valid_parts() {
    for seed in 0..50 {
        let (mut ntc, mut family) = new_random(seed);
        let dt = generate_datetime(
            &mut ntc, &mut family,
            DateTime {
                date: FULL_MIN_DATE,
                time: MIDNIGHT,
            },
            DateTime {
                date: FULL_MAX_DATE,
                time: LAST_NANOSECOND,
            },
        )
        .unwrap();
        assert!((1..=9999).contains(&dt.date.year));
        assert!((1..=12).contains(&dt.date.month));
        assert!(dt.time.hour <= 23);
    }
}

#[test]
fn generate_uuid_respects_version() {
    for version in 1u8..=5 {
        for seed in 0..30 {
            let (mut ntc, mut family) = new_random(seed);
            let bytes = generate_uuid(&mut ntc, &mut family, Some(version)).unwrap();
            assert_eq!(bytes[6] >> 4, version, "version nibble mismatch");
            assert!(
                matches!(bytes[8] >> 4, 0x8..=0xb),
                "variant nibble {:x} not in 8..=b",
                bytes[8] >> 4
            );
        }
    }
}

#[test]
fn generate_uuid_default_can_produce_non_rfc_versions() {
    let mut saw_non_rfc = false;
    for seed in 0..200 {
        let (mut ntc, mut family) = new_random(seed);
        let bytes = generate_uuid(&mut ntc, &mut family, None).unwrap();
        let nibble = bytes[6] >> 4;
        if nibble == 0 || nibble >= 6 {
            saw_non_rfc = true;
        }
    }
    assert!(
        saw_non_rfc,
        "every version nibble was in 1..=5 across 200 draws"
    );
}

#[test]
fn generate_uuid_never_produces_nil() {
    let (mut ntc, mut family) = for_simplest(1000);
    let bytes = generate_uuid(&mut ntc, &mut family, None).unwrap();
    assert_ne!(bytes, [0u8; 16], "nil UUID must never be produced");
}

#[test]
fn generate_uuid_rejects_wide_version() {
    let (mut ntc, mut family) = new_random(0);
    let err = generate_uuid(&mut ntc, &mut family, Some(16)).unwrap_err();
    assert!(matches!(err, EngineError::InvalidArgument(_)));
    assert!(err.to_message().contains("hex nibble"));
}

#[test]
fn civil_day_conversions_round_trip() {
    assert_eq!(days_from_civil(&date(1970, 1, 1)), 0);
    assert_eq!(days_from_civil(&date(2000, 1, 1)), 10_957);
    for days in (-800_000..800_000).step_by(37) {
        let d = civil_from_days(days);
        assert_eq!(days_from_civil(&d), days, "round trip failed for {d:?}");
        assert!((1..=12).contains(&d.month));
        assert!(d.day >= 1 && i64::from(d.day) <= days_in_month(d.year, d.month));
    }
    for (y, m, dd) in [(1, 1, 1), (1600, 2, 29), (1999, 12, 31), (9999, 12, 31)] {
        let d = date(y, m, dd);
        assert_eq!(civil_from_days(days_from_civil(&d)), d);
    }
}

#[test]
fn generate_date_respects_bounds() {
    let min = date(1990, 6, 15);
    let max = date(2010, 2, 3);
    for seed in 0..300 {
        let (mut ntc, mut family) = new_random(seed);
        let d = generate_date(&mut ntc, &mut family, min, max).unwrap();
        let days = days_from_civil(&d);
        assert!(
            (days_from_civil(&min)..=days_from_civil(&max)).contains(&days),
            "{d:?} outside bounds"
        );
    }
}

#[test]
fn generate_date_shrinks_toward_2000_01_01_clamped() {
    for (min, max, expect) in [
        (date(1990, 1, 1), date(2010, 12, 31), date(2000, 1, 1)),
        (date(2005, 3, 2), date(2010, 12, 31), date(2005, 3, 2)),
        (date(1980, 1, 1), date(1990, 6, 6), date(1990, 6, 6)),
    ] {
        let (mut ntc, mut family) = for_choices(&[ChoiceValue::Integer(big(0))]);
        let d = generate_date(&mut ntc, &mut family, min, max).unwrap();
        assert_eq!(d, expect);
    }
}

#[test]
fn generate_date_rejects_invalid_arguments() {
    let (mut ntc, mut family) = new_random(0);
    for (min, max) in [
        (date(2000, 2, 30), FULL_MAX_DATE),
        (FULL_MIN_DATE, date(2000, 13, 1)),
        (date(2000, 0, 1), FULL_MAX_DATE),
        (date(2000, 1, 0), FULL_MAX_DATE),
        (date(1_000_000, 1, 1), date(1_000_000, 1, 2)),
        (date(2001, 1, 1), date(2000, 1, 1)),
    ] {
        let err = generate_date(&mut ntc, &mut family, min, max).unwrap_err();
        assert!(
            matches!(err, EngineError::InvalidArgument(_)),
            "{min:?}..{max:?}"
        );
    }
}

#[test]
fn generate_date_supports_negative_years() {
    let min = date(-262_143, 1, 1);
    let max = date(262_143, 12, 31);
    let mut seen_negative = false;
    for seed in 0..200 {
        let (mut ntc, mut family) = new_random(seed);
        let d = generate_date(&mut ntc, &mut family, min, max).unwrap();
        assert!((-262_143..=262_143).contains(&d.year));
        if d.year < 0 {
            seen_negative = true;
        }
    }
    assert!(seen_negative, "no negative-year dates across 200 seeds");
}

#[test]
fn generate_time_respects_bounds_and_shrinks_to_min() {
    let min = time(9, 30, 0, 0);
    let max = time(17, 0, 0, 0);
    for seed in 0..200 {
        let (mut ntc, mut family) = new_random(seed);
        let t = generate_time(&mut ntc, &mut family, min, max).unwrap();
        let ns = time_to_ns(&t);
        assert!((time_to_ns(&min)..=time_to_ns(&max)).contains(&ns), "{t:?}");
    }
    let (mut ntc, mut family) = for_choices(&[ChoiceValue::Integer(big(0))]);
    assert_eq!(generate_time(&mut ntc, &mut family, min, max).unwrap(), min);
}

#[test]
fn generate_time_rejects_invalid_arguments() {
    let (mut ntc, mut family) = new_random(0);
    for (min, max) in [
        (time(24, 0, 0, 0), LAST_NANOSECOND),
        (MIDNIGHT, time(0, 60, 0, 0)),
        (MIDNIGHT, time(0, 0, 60, 0)),
        (MIDNIGHT, time(0, 0, 0, 1_000_000_000)),
        (time(1, 0, 0, 0), time(0, 59, 0, 0)),
    ] {
        let err = generate_time(&mut ntc, &mut family, min, max).unwrap_err();
        assert!(
            matches!(err, EngineError::InvalidArgument(_)),
            "{min:?}..{max:?}"
        );
    }
}

#[test]
fn generate_datetime_respects_time_bounds_on_boundary_dates() {
    let min = DateTime {
        date: date(2000, 1, 1),
        time: time(12, 0, 0, 0),
    };
    let max = DateTime {
        date: date(2000, 1, 3),
        time: time(6, 0, 0, 0),
    };
    let mut seen_min_date = false;
    let mut seen_max_date = false;
    for seed in 0..500 {
        let (mut ntc, mut family) = new_random(seed);
        let dt = generate_datetime(&mut ntc, &mut family, min, max).unwrap();
        let day = days_from_civil(&dt.date);
        assert!((days_from_civil(&min.date)..=days_from_civil(&max.date)).contains(&day));
        if day == days_from_civil(&min.date) {
            seen_min_date = true;
            assert!(time_to_ns(&dt.time) >= time_to_ns(&min.time), "{dt:?}");
        }
        if day == days_from_civil(&max.date) {
            seen_max_date = true;
            assert!(time_to_ns(&dt.time) <= time_to_ns(&max.time), "{dt:?}");
        }
    }
    assert!(seen_min_date && seen_max_date, "boundary dates not covered");
}

#[test]
fn generate_datetime_single_day_constrains_both_ends() {
    let min = DateTime {
        date: date(2020, 5, 5),
        time: time(10, 0, 0, 0),
    };
    let max = DateTime {
        date: date(2020, 5, 5),
        time: time(11, 0, 0, 0),
    };
    for seed in 0..100 {
        let (mut ntc, mut family) = new_random(seed);
        let dt = generate_datetime(&mut ntc, &mut family, min, max).unwrap();
        assert_eq!(dt.date, min.date);
        let ns = time_to_ns(&dt.time);
        assert!((time_to_ns(&min.time)..=time_to_ns(&max.time)).contains(&ns));
    }
}

#[test]
fn generate_datetime_rejects_inverted_bounds() {
    let (mut ntc, mut family) = new_random(0);
    let lo = DateTime {
        date: date(2020, 5, 5),
        time: time(11, 0, 0, 0),
    };
    let hi = DateTime {
        date: date(2020, 5, 5),
        time: time(10, 0, 0, 0),
    };
    let err = generate_datetime(&mut ntc, &mut family, lo, hi).unwrap_err();
    assert!(matches!(err, EngineError::InvalidArgument(_)));
}
