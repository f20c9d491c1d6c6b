//! Test cases: their draws, their spans and what random values are made of.

use hegel::bignum::BigInt;
use hegel::choices::{
    BooleanChoice, ChoiceData, ChoiceNode, ChoiceTemplate, ChoiceValue, FloatChoice, FloatValue,
    IntegerChoice, Probability, StringChoice, PROBABILITY_ONE,
};
use hegel::collections::length_p_continue;
use hegel::errors::{EngineError, InterestingOrigin, Status};
use hegel::family::FamilyCore;
use hegel::float_grids::FloatWidth;
use hegel::float_sampling::{log_uniform_integer, log_uniform_magnitude};
use hegel::float_order::float_order;
use hegel::float_weights::{FloatGenerationParameters, GenerationParameters};
use hegel::floats::{next_down, FloatArithmetic};
use hegel::integer_constants::IntegerPools;
use hegel::intervalsets::{constants_in_alphabet, IntervalSet};
use hegel::rng::EngineRng;
use hegel::sampling::{Distributions, IntegerGenerationParameters, Sampler};
use hegel::sequence_sampling::{weighted_boolean_sample, weighted_index_sample};
use hegel::spans::{Span, Spans, MAX_DEPTH};
use hegel::test_case::{DataObserver, NativeTestCase, NoObserver};
use hegel::text_constants::{global_constants_strings, TextPool};
use hegel::variables::{FreshIds, NativeVariables};
use std::sync::Arc;

/// Chances for tests: even where a real distribution would be lopsided.
#[derive(Clone, Copy)]
struct Even;

impl FloatArithmetic for Even {
    fn float_step(&self, bits: u64, up: bool) -> u64 {
        let v = f64::from_bits(bits);
        if up { v + 1.0 } else { v - 1.0 }.to_bits()
    }

    fn float_between(&self, min: u64, max: u64, share: u64) -> u64 {
        let (min, max) = (f64::from_bits(min), f64::from_bits(max));
        let share = share as f64 / ((1u64 << 52) - 1) as f64;
        (min + (max - min).min(f64::MAX) * share).to_bits()
    }

    fn float_text(&self, bits: u64) -> String {
        format!("{}", f64::from_bits(bits))
    }
}

impl Distributions for Even {
    fn tells_apart(&self, min: i128, max: i128) -> bool {
        let _ = (min, max);
        false
    }

    fn middle_integer(&self, min: i128, max: i128, share: u64) -> i128 {
        let _ = (max, share);
        min
    }

    fn extra_length(&self, min_size: usize, max_size: usize, share: u64) -> usize {
        let p = length_p_continue(min_size, Some(max_size)).numerator as f64
            / PROBABILITY_ONE as f64;
        let u = (share as f64 + 0.5) / PROBABILITY_ONE as f64;
        (u.ln() / p.ln()).floor() as usize
    }
}

/// How many choices a test case may make.
const BUFFER_SIZE: usize = 8192;

/// How deep streams may be cloned.
const CLONE_DEPTH: usize = 8;

fn chance(p: f64) -> Probability {
    let numerator = (p * PROBABILITY_ONE as f64) as u64;
    Probability { numerator: if p > 0.0 { numerator.max(1) } else { numerator } }
}

fn weights(endpoint: f64, interesting: f64, diffuse: f64) -> IntegerGenerationParameters {
    IntegerGenerationParameters {
        endpoint: chance(endpoint),
        interesting: chance(interesting),
        diffuse: chance(diffuse),
    }
}

fn usual_weights() -> IntegerGenerationParameters {
    weights(0.025, 0.25, 0.0375)
}

fn usual_parameters() -> GenerationParameters {
    GenerationParameters {
        integer: usual_weights(),
        float: FloatGenerationParameters::from_weights([PROBABILITY_ONE / 17; 17]),
    }
}

fn sampler() -> Sampler<Even> {
    Sampler {
        integers: IntegerPools::new(),
        texts: TextPool::new(),
        boundary: chance(0.01),
        curated_min_width: 1 << 8,
        weights: usual_parameters(),
        distributions: Even,
    }
}

type Case = NativeTestCase<Even, NoObserver>;

/// A test case that draws at random.
fn new_random(seed: u64) -> (Case, FamilyCore) {
    NativeTestCase::new_random_with_params(
        EngineRng::seeded(seed),
        Arc::new(sampler()),
        usual_parameters(),
        BUFFER_SIZE,
        None,
        CLONE_DEPTH,
    )
}

/// A test case that replays choices.
fn for_choices(choices: &[ChoiceValue]) -> (Case, FamilyCore) {
    NativeTestCase::for_choices(choices, None, None, CLONE_DEPTH)
}

/// A test case that makes the simplest choices.
fn for_simplest(max_size: usize) -> (Case, FamilyCore) {
    NativeTestCase::for_simplest(max_size, None, CLONE_DEPTH).unwrap()
}

fn big(v: i128) -> BigInt {
    BigInt::from_i128(v)
}

fn draw<O: DataObserver>(
    tc: &mut NativeTestCase<Even, O>,
    family: &mut FamilyCore,
    min: i128,
    max: i128,
) -> Result<i128, EngineError> {
    tc.draw_integer(family, big(min), big(max)).map(|v| v.to_i128().unwrap())
}

/// Keeps the last of each thing that it was told.
#[derive(Default)]
struct Recorder {
    boolean: Option<(bool, bool)>,
    integer: Option<(BigInt, bool)>,
    float: Option<(u64, bool)>,
    bytes: Option<(Vec<u8>, bool)>,
    string: Option<(String, bool)>,
    concluded: Option<Status>,
}

impl DataObserver for Recorder {
    fn draw_boolean(&mut self, value: bool, was_forced: bool) {
        self.boolean = Some((value, was_forced));
    }

    fn draw_integer(&mut self, value: &BigInt, was_forced: bool) {
        self.integer = Some((value.clone(), was_forced));
    }

    fn draw_float(&mut self, value: FloatValue, was_forced: bool) {
        self.float = Some((value.bits, was_forced));
    }

    fn draw_bytes(&mut self, value: &Vec<u8>, was_forced: bool) {
        self.bytes = Some((value.clone(), was_forced));
    }

    fn draw_string(&mut self, value: &str, was_forced: bool) {
        self.string = Some((value.to_string(), was_forced));
    }

    fn conclude_test(&mut self, status: Status, _origin: Option<InterestingOrigin>) {
        self.concluded = Some(status);
    }
}

type Observed = NativeTestCase<Even, Recorder>;

fn observed(choices: &[ChoiceValue], max_size: usize) -> (Observed, FamilyCore) {
    NativeTestCase::for_choices_and_template(
        choices,
        None,
        None,
        max_size,
        Some(Recorder::default()),
        CLONE_DEPTH,
    )
}

fn float_value(v: f64) -> FloatValue {
    FloatValue { bits: v.to_bits(), order: float_order(v.to_bits()) }
}

fn float_choice(min: f64, max: f64, allow_nan: bool, allow_infinity: bool) -> FloatChoice {
    FloatChoice {
        min_bits: min.to_bits(),
        max_bits: max.to_bits(),
        allow_nan,
        allow_infinity,
        smallest_magnitude_bits: 5e-324f64.to_bits(),
        simplest: float_value(if min > 0.0 { min } else { 0.0 }),
        unit: float_value(1.0),
    }
}

fn float_pow2(exponent: i32) -> f64 {
    2.0f64.powi(exponent)
}

fn swarm_sample(min: i128, max: i128, rng: &mut EngineRng) -> i128 {
    sampler().biased_i128_sample(min, max, rng, usual_weights()).unwrap()
}

struct NoopObserver;

impl DataObserver for NoopObserver {}

fn kind_bounds(tc: &Case, i: usize) -> (BigInt, BigInt) {
    match &tc.nodes[i].data {
        ChoiceData::Integer(kind, _) => (kind.min_value.clone(), kind.max_value.clone()),
        other => panic!("expected an integer kind, got {other:?}"),
    }
}

fn fresh_id_kind_max(tc: &Case, i: usize) -> BigInt {
    kind_bounds(tc, i).1
}

fn tc_with_fresh_ids(count: i64, tail: &[i64]) -> (Case, FamilyCore) {
    let mut choices: Vec<ChoiceValue> =
        (0..count).map(|i| ChoiceValue::Integer(BigInt::from_i64(i))).collect();
    choices.extend(tail.iter().map(|&v| ChoiceValue::Integer(BigInt::from_i64(v))));
    let (mut tc, mut family) = for_choices(&choices);
    for i in 0..count {
        assert_eq!(tc.draw_fresh_id(&mut family).unwrap(), i);
    }
    (tc, family)
}

fn millionfold(v: i128) -> BigInt {
    let mut total = BigInt::zero();
    let one = big(v);
    for _ in 0..1_000_000 {
        total = total.plus(&one);
    }
    total
}

fn magnitude(lo: f64, hi: f64, rng: &mut EngineRng) -> f64 {
    f64::from_bits(log_uniform_magnitude(lo.to_bits(), hi.to_bits(), rng))
}

fn float_below(v: f64) -> f64 {
    f64::from_bits(next_down(v.to_bits()))
}

#[test]
fn spans_get_mut_returns_mutable_reference() {
    let mut spans = Spans::new();
    spans.push(Span {
        start: 0,
        end: 1,
        label: 1,
        depth: 0,
        parent: None,
        discarded: false,
    });
    let span = spans.get_mut(0).unwrap();
    span.discarded = true;
    assert!(spans.as_slice()[0].discarded);
}

#[test]
fn spans_get_mut_returns_none_out_of_bounds() {
    let mut spans = Spans::new();
    assert!(spans.get_mut(0).is_none());
}

#[test]
fn spans_trivial_handles_simplest_forced_and_oob() {
    let simplest = ChoiceNode::boolean(BooleanChoice { p: chance(0.5) }, false, false);
    let interesting = ChoiceNode::boolean(BooleanChoice { p: chance(0.5) }, true, false);
    let forced_interesting = ChoiceNode::boolean(BooleanChoice { p: chance(0.5) }, true, true);

    let mut spans = Spans::new();
    spans.push(Span {
        start: 0,
        end: 2,
        label: 1,
        depth: 0,
        parent: None,
        discarded: false,
    });

    let nodes = vec![simplest.clone(), simplest.clone()];
    assert!(spans.trivial(0, &nodes).unwrap());

    let nodes = vec![simplest.clone(), interesting.clone()];
    assert!(!spans.trivial(0, &nodes).unwrap());

    let nodes = vec![simplest, forced_interesting];
    assert!(spans.trivial(0, &nodes).unwrap());

    let other = Spans::new();
    let empty: Vec<ChoiceNode> = Vec::new();
    assert!(!other.trivial(7, &empty).unwrap());
}

#[test]
fn spans_into_vec_consumes_and_returns_inner() {
    let mut spans = Spans::new();
    spans.push(Span {
        start: 0,
        end: 1,
        label: 1,
        depth: 0,
        parent: None,
        discarded: false,
    });
    let v = spans.into_vec();
    assert_eq!(v.len(), 1);
    assert_eq!(v[0].label, 1);
}

#[test]
fn spans_from_vec() {
    let v = vec![Span {
        start: 0,
        end: 3,
        label: 1,
        depth: 0,
        parent: None,
        discarded: false,
    }];
    let spans = Spans::from_vec(v);
    assert_eq!(spans.len(), 1);
    assert_eq!(spans.as_slice()[0].label, 1);
}

#[test]
fn spans_deref_to_slice() {
    let mut spans = Spans::new();
    spans.push(Span {
        start: 0,
        end: 1,
        label: 1,
        depth: 0,
        parent: None,
        discarded: false,
    });
    let slice: &[Span] = spans.as_slice();
    assert_eq!(slice.len(), 1);
    assert_eq!(slice[0].label, 1);
}

#[test]
fn spans_into_iterator() {
    let mut spans = Spans::new();
    for i in 0..3 {
        spans.push(Span {
            start: i,
            end: i + 1,
            label: i as u64,
            depth: 0,
            parent: None,
            discarded: false,
        });
    }
    let labels: Vec<u64> = spans.as_slice().iter().map(|s| s.label).collect();
    assert_eq!(labels, vec![0, 1, 2]);
}

#[test]
fn draw_integer_forced_records_a_forced_node_without_consuming_the_prefix() {
    let prefix = vec![ChoiceValue::Integer(big(9))];
    let (mut tc, mut family): (Case, FamilyCore) = NativeTestCase::for_choices_and_template(
        &prefix,
        None,
        Some(ChoiceTemplate::simplest(None).unwrap()),
        4, None, CLONE_DEPTH);
    tc.draw_integer_forced(&mut family, big(0), big(10), big(7))
        .ok()
        .unwrap();
    assert_eq!(tc.nodes.len(), 1);
    assert!(tc.nodes[0].was_forced);
    assert_eq!(tc.nodes[0].value(), ChoiceValue::Integer(big(7)));
    assert_eq!(draw(&mut tc, &mut family, 0, 100).ok().unwrap(), 0);
}

#[test]
fn draw_integer_forced_notifies_observer() {
    let (mut tc, mut family) = observed(&[], 4);
    tc.draw_integer_forced(&mut family, big(0), big(5), big(3)).ok().unwrap();
    assert_eq!(tc.observer.unwrap().integer, Some((big(3), true)));
}

#[test]
fn draw_integer_forced_errors_on_an_exhausted_test_case() {
    let (mut tc, mut family) = for_choices(&[]);
    assert!(matches!(
        tc.draw_integer_forced(&mut family, big(0), big(5), big(3)),
        Err(EngineError::Overrun)
    ));
}

#[test]
fn draw_integer_forced_rejects_out_of_range_values() {
    let (mut tc, mut family): (Case, FamilyCore) = NativeTestCase::for_choices_and_template(&[], None, None, 4, None, CLONE_DEPTH);
    let msg = tc.draw_integer_forced(&mut family, big(0), big(5), big(6))
        .unwrap_err().to_message();
    assert!(msg.contains("outside"), "{msg}");
    assert!(msg.contains("bug in hegel"), "{msg}");
}

#[test]
fn spans_get_returns_span_by_index() {
    let mut spans = Spans::new();
    spans.push(Span {
        start: 0,
        end: 1,
        label: 1,
        depth: 0,
        parent: None,
        discarded: false,
    });
    spans.push(Span {
        start: 1,
        end: 2,
        label: 2,
        depth: 0,
        parent: None,
        discarded: false,
    });
    assert_eq!(spans.get(0).unwrap().label, 1);
    assert_eq!(spans.get(1).unwrap().label, 2);
    assert!(spans.get(2).is_none());
}

#[test]
fn spans_as_slice_returns_slice() {
    let mut spans = Spans::new();
    spans.push(Span {
        start: 0,
        end: 1,
        label: 1,
        depth: 0,
        parent: None,
        discarded: false,
    });
    let sl = spans.as_slice();
    assert_eq!(sl.len(), 1);
    assert_eq!(sl[0].label, 1);
}

#[test]
fn stop_span_on_empty_stack_is_a_no_op() {
    let (mut tc, _) = for_choices(&[]);
    tc.stop_span(false);
    assert!(tc.structure.spans.is_empty());
}

#[test]
fn data_observer_draw_boolean_default_is_no_op() {
    let mut obs = NoopObserver;
    obs.draw_boolean(true, false);
}

#[test]
fn data_observer_draw_integer_default_is_no_op() {
    let mut obs = NoopObserver;
    obs.draw_integer(&big(42), false);
}

#[test]
fn data_observer_draw_float_default_is_no_op() {
    let mut obs = NoopObserver;
    obs.draw_float(float_value(1.5), false);
}

#[test]
fn data_observer_conclude_test_default_is_no_op() {
    let mut obs = NoopObserver;
    obs.conclude_test(Status::Valid, None);
}

#[test]
fn weighted_with_p_zero_returns_false_without_consulting_rng() {
    let (mut tc, mut family) = new_random(0);
    let v = tc.weighted(&mut family, chance(0.0), None).ok().unwrap();
    assert!(!v);
    assert!(tc.nodes.last().unwrap().was_forced);
}

#[test]
fn weighted_with_p_one_returns_true_without_consulting_rng() {
    let (mut tc, mut family) = new_random(0);
    let v = tc.weighted(&mut family, chance(1.0), None).ok().unwrap();
    assert!(v);
    assert!(tc.nodes.last().unwrap().was_forced);
}

#[test]
fn weighted_with_explicit_forced_records_forced_node() {
    let (mut tc, mut family) = new_random(0);
    let v = tc.weighted(&mut family, chance(0.5), Some(true)).ok().unwrap();
    assert!(v);
    assert!(tc.nodes.last().unwrap().was_forced);
    let v = tc.weighted(&mut family, chance(0.5), Some(false)).ok().unwrap();
    assert!(!v);
    assert!(tc.nodes.last().unwrap().was_forced);
}

#[test]
fn freeze_is_a_no_op_on_already_frozen_test_case() {
    let (mut tc, mut family) = for_choices(&[ChoiceValue::Boolean(true)]);
    tc.start_span(&mut family, 7);
    tc.stop_span(false);
    tc.freeze(&mut family);
    let spans_after_first = tc.structure.spans.clone().into_vec();
    tc.freeze(&mut family);
    assert_eq!(tc.structure.spans.clone().into_vec(), spans_after_first);
}

#[test]
fn weighted_notifies_observer_on_boolean_draw() {
    let (mut tc, mut family) = observed(&[ChoiceValue::Boolean(true)], 1);
    let v = tc.weighted(&mut family, chance(0.5), None).ok().unwrap();
    assert!(v);
    assert_eq!(tc.observer.unwrap().boolean, Some((true, false)));
}

#[test]
fn freeze_notifies_observer_on_conclude_test() {
    let (mut tc, mut family) = observed(&[], 0);
    tc.freeze(&mut family);
    assert_eq!(tc.observer.unwrap().concluded, Some(Status::Valid));
}

#[test]
fn draw_integer_notifies_observer() {
    let (mut tc, mut family) = observed(&[ChoiceValue::Integer(big(99))], 1);
    let v = draw(&mut tc, &mut family, 0, 100).ok().unwrap();
    assert_eq!(v, 99);
    assert_eq!(tc.observer.unwrap().integer, Some((big(99), false)));
}

#[test]
fn draw_float_notifies_observer() {
    let (mut tc, mut family) = observed(&[ChoiceValue::Float(float_value(2.5))], 1);
    let v = tc.draw_float(&mut family, FloatWidth::F64, float_choice(0.0, 10.0, false, false)).ok().unwrap();
    assert_eq!(f64::from_bits(v.bits), 2.5);
    assert_eq!(tc.observer.unwrap().float, Some((2.5_f64.to_bits(), false)));
}

#[test]
fn data_observer_draw_bytes_default_is_no_op() {
    let mut obs = NoopObserver;
    obs.draw_bytes(&vec![1, 2, 3], false);
}

#[test]
fn draw_bytes_notifies_observer() {
    let (mut tc, mut family) = observed(&[ChoiceValue::Bytes(vec![1, 2, 3])], 1);
    let v = tc.draw_bytes(&mut family, 0, 10).ok().unwrap();
    assert_eq!(v, vec![1, 2, 3]);
    assert_eq!(tc.observer.unwrap().bytes, Some((vec![1u8, 2, 3], false)));
}

#[test]
fn data_observer_draw_string_default_is_no_op() {
    let mut obs = NoopObserver;
    obs.draw_string("hello", false);
}

#[test]
fn draw_string_notifies_observer() {
    let choices = vec![ChoiceValue::String(vec![
        b'a' as u32,
        b'b' as u32,
        b'c' as u32,
    ])];
    let (mut tc, mut family) = observed(&choices, 1);
    let mut intervals = IntervalSet::new(vec![(0, 0xD7FF), (0xE000, 0x10FFFF)]).unwrap();
    let s = tc.draw_string(&mut family, &mut intervals, 0, 10).ok().unwrap();
    assert_eq!(s, "abc");
    assert_eq!(tc.observer.unwrap().string, Some(("abc".to_string(), false)));
}

#[test]
fn stop_span_closes_nested_spans_innermost_first() {
    let (mut tc, mut family) = for_choices(&[]);
    tc.start_span(&mut family, 1);
    tc.start_span(&mut family, 2);
    tc.stop_span(false);
    tc.stop_span(false);
}

#[test]
fn draw_float_unbounded_with_nan_can_produce_nan() {
    for seed in 0..200u64 {
        let (mut tc, mut family) = new_random(seed);
        let kind = float_choice(f64::NEG_INFINITY, f64::INFINITY, true, true);
        let v = tc.draw_float(&mut family, FloatWidth::F64, kind).ok().unwrap();
        if f64::from_bits(v.bits).is_nan() {
            return;
        }
    }
    panic!("never produced NaN in 200 unbounded draws with allow_nan=true");
}

#[test]
fn draw_float_half_bounded_below_explores_finite_range() {
    let (mut tc, mut family) = new_random(0);
    let kind = float_choice(1.0, f64::INFINITY, false, false);
    let v = f64::from_bits(tc.draw_float(&mut family, FloatWidth::F64, kind).ok().unwrap().bits);
    assert!(v >= 1.0 && !v.is_nan());
}

#[test]
fn for_simplest_draws_integer_at_shrink_target_when_in_range() {
    let (mut tc, mut family) = for_simplest(BUFFER_SIZE);
    let v = draw(&mut tc, &mut family, 0, 23).ok().unwrap();
    assert_eq!(v, 0);
}

#[test]
fn for_simplest_draws_integer_clamped_to_range_when_target_below() {
    let (mut tc, mut family) = for_simplest(BUFFER_SIZE);
    let v = draw(&mut tc, &mut family, 5, 100).ok().unwrap();
    assert_eq!(v, 5);
}

#[test]
fn for_simplest_draws_integer_clamped_to_range_when_target_above() {
    let (mut tc, mut family) = for_simplest(BUFFER_SIZE);
    let v = draw(&mut tc, &mut family, -100, -1).ok().unwrap();
    assert_eq!(v, -1);
}

#[test]
fn for_simplest_draws_float_at_zero() {
    let (mut tc, mut family) = for_simplest(BUFFER_SIZE);
    let kind = float_choice(-10.0, 10.0, false, false);
    let v = f64::from_bits(tc.draw_float(&mut family, FloatWidth::F64, kind).ok().unwrap().bits);
    assert_eq!(v, 0.0);
    assert!(v.is_sign_positive(), "expected +0.0, got -0.0");
}

#[test]
fn for_simplest_draws_weighted_at_false() {
    let (mut tc, mut family) = for_simplest(BUFFER_SIZE);
    let v = tc.weighted(&mut family, chance(0.5), None).ok().unwrap();
    assert!(!v, "weighted draw in simplest mode should be false");
}

#[test]
fn for_simplest_draws_bytes_at_min_size_all_zero() {
    let (mut tc, mut family) = for_simplest(BUFFER_SIZE);
    let v = tc.draw_bytes(&mut family, 2, 5).ok().unwrap();
    assert_eq!(v, vec![0u8; 2], "expected min-sized all-zero buffer");
}

#[test]
fn for_simplest_is_independent_of_seed() {
    let (mut a, mut family_a) = for_simplest(BUFFER_SIZE);
    let (mut b, mut family_b) = for_simplest(BUFFER_SIZE);
    for _ in 0..5 {
        let va = draw(&mut a, &mut family_a, 0, 1000).ok().unwrap();
        let vb = draw(&mut b, &mut family_b, 0, 1000).ok().unwrap();
        assert_eq!(va, vb);
        assert_eq!(va, 0);
    }
}

#[test]
fn for_simplest_records_choice_nodes() {
    let (mut tc, mut family) = for_simplest(BUFFER_SIZE);
    let _ = draw(&mut tc, &mut family, 0, 23).ok().unwrap();
    let _ = tc.weighted(&mut family, chance(0.5), None).ok().unwrap();
    assert_eq!(tc.nodes.len(), 2);
}

#[test]
fn template_simplest_infinite_resolves_every_draw_to_simplest() {
    let (mut tc, mut family): (Case, FamilyCore) = NativeTestCase::for_choices_and_template(
        &[],
        None,
        Some(ChoiceTemplate::simplest(None).unwrap()),
        10, None, CLONE_DEPTH);
    for _ in 0..5 {
        assert_eq!(draw(&mut tc, &mut family, -100, 100).ok().unwrap(), 0);
    }
    assert!(!tc.weighted(&mut family, chance(0.5), None).ok().unwrap());
}

#[test]
fn template_simplest_finite_count_n_produces_exactly_n_values() {
    let (mut tc, mut family): (Case, FamilyCore) = NativeTestCase::for_choices_and_template(
        &[],
        None,
        Some(ChoiceTemplate::simplest(Some(3)).unwrap()),
        100, None, CLONE_DEPTH);
    for _ in 0..3 {
        assert_eq!(draw(&mut tc, &mut family, 0, 100).ok().unwrap(), 0);
    }
    assert!(draw(&mut tc, &mut family, 0, 100).is_err());
    assert_eq!(family.status(), Some(Status::EarlyStop));
}

#[test]
fn template_concrete_prefix_then_template() {
    let prefix = vec![ChoiceValue::Integer(big(42))];
    let (mut tc, mut family): (Case, FamilyCore) = NativeTestCase::for_choices_and_template(
        &prefix,
        None,
        Some(ChoiceTemplate::simplest(None).unwrap()),
        10, None, CLONE_DEPTH);
    assert_eq!(draw(&mut tc, &mut family, 0, 100).ok().unwrap(), 42);
    assert_eq!(draw(&mut tc, &mut family, 0, 100).ok().unwrap(), 0);
    assert_eq!(draw(&mut tc, &mut family, 0, 100).ok().unwrap(), 0);
}

#[test]
fn template_concrete_prefix_with_punning_then_template() {
    let prefix = vec![ChoiceValue::Boolean(true)];
    let prefix_nodes = vec![ChoiceNode::boolean(BooleanChoice { p: chance(0.5) }, true, false)];
    let (mut tc, mut family): (Case, FamilyCore) = NativeTestCase::for_choices_and_template(
        &prefix,
        Some(&prefix_nodes),
        Some(ChoiceTemplate::simplest(None).unwrap()),
        10,
        None,
        CLONE_DEPTH,
    );
    let v = draw(&mut tc, &mut family, -100, 100).ok().unwrap();
    let expected_unit: i128 = IntegerChoice {
        min_value: big(-100),
        max_value: big(100),
        shrink_towards: big(0),
    }
    .unit()
    .to_i128()
    .unwrap();
    assert_eq!(v, expected_unit);
    assert_eq!(draw(&mut tc, &mut family, 0, 100).ok().unwrap(), 0);
}

#[test]
fn template_count_zero_errors_at_construction() {
    let msg = ChoiceTemplate::simplest(Some(0)).unwrap_err().to_message();
    assert!(
        msg.contains("ChoiceTemplate count must be positive"),
        "{msg}"
    );
}

#[test]
fn for_simplest_wrapper_matches_template_with_count_none() {
    let (mut a, mut family_a) = for_simplest(5);
    let (mut b, mut family_b): (Case, FamilyCore) = NativeTestCase::for_choices_and_template(
        &[],
        None,
        Some(ChoiceTemplate::simplest(None).unwrap()),
        5,
        None,
        CLONE_DEPTH,
    );
    for _ in 0..5 {
        let va = draw(&mut a, &mut family_a, -10, 10).ok().unwrap();
        let vb = draw(&mut b, &mut family_b, -10, 10).ok().unwrap();
        assert_eq!(va, vb);
        assert_eq!(va, 0);
    }
}

#[test]
fn template_count_decrements_on_each_draw() {
    let (mut tc, mut family): (Case, FamilyCore) = NativeTestCase::for_choices_and_template(
        &[],
        None,
        Some(ChoiceTemplate::simplest(Some(3)).unwrap()),
        100, None, CLONE_DEPTH);
    for _ in 0..3 {
        let _ = draw(&mut tc, &mut family, 0, 100).ok().unwrap();
    }
    assert_eq!(tc.trailing_template.as_ref().unwrap().count, Some(0));
    assert!(draw(&mut tc, &mut family, 0, 100).is_err());
    assert_eq!(tc.trailing_template.as_ref().unwrap().count, Some(0));
}

#[test]
fn biased_integer_sample_stays_in_range_for_small_bounds() {
    let mut rng = EngineRng::seeded(1);
    for _ in 0..1000 {
        let v = swarm_sample(0, 100, &mut rng);
        assert!((0..=100).contains(&v), "out of range: {v}");
    }
}

#[test]
fn biased_integer_sample_stays_in_range_for_wide_bounds() {
    let mut rng = EngineRng::seeded(2);
    for _ in 0..2000 {
        let v = swarm_sample(i64::MIN as i128, i64::MAX as i128, &mut rng);
        assert!(
            (i64::MIN as i128..=i64::MAX as i128).contains(&v),
            "out of range: {v}"
        );
    }
}

#[test]
fn biased_integer_sample_stays_in_range_for_full_i128() {
    let mut rng = EngineRng::seeded(3);
    for _ in 0..1000 {
        swarm_sample(i128::MIN, i128::MAX, &mut rng);
    }
}

#[test]
fn biased_integer_sample_collapses_when_min_equals_max() {
    let mut rng = EngineRng::seeded(4);
    for _ in 0..100 {
        assert_eq!(swarm_sample(42, 42, &mut rng), 42);
    }
}

#[test]
fn biased_integer_sample_wide_range_still_draws_from_distribution() {
    let mut rng = EngineRng::seeded(8);
    let pools = IntegerPools::new();
    let pool = pools.nasty();
    let total = 2000;
    let mut outside_pool = 0;
    for _ in 0..total {
        let v = swarm_sample(i64::MIN as i128, i64::MAX as i128, &mut rng);
        if pool.binary_search(&v).is_err() {
            outside_pool += 1;
        }
    }
    let fraction = outside_pool as f64 / total as f64;
    assert!(
        fraction > 0.25,
        "only {fraction} of draws came from the distribution; nasty pool not capped?"
    );
}

/// Each weight says how often a wide draw comes from its category. Without
/// any, what only the endpoint category gives goes away.
#[test]
fn biased_integer_sample_category_weights_control_the_mix() {
    let sampler = sampler();
    let total = 200_000;
    let (lo, hi) = (i64::MIN as i128, i64::MAX as i128);

    let measure = |params: IntegerGenerationParameters, seed: u64| -> (f64, f64) {
        let mut rng = EngineRng::seeded(seed);
        let (mut endpoint, mut small) = (0u64, 0u64);
        for _ in 0..total {
            let v = sampler.biased_i128_sample(lo, hi, &mut rng, params).unwrap();
            if v == lo || v == hi || v == lo + 1 || v == hi - 1 {
                endpoint += 1;
            }
            if v.unsigned_abs() <= 8 {
                small += 1;
            }
        }
        (endpoint as f64 / total as f64, small as f64 / total as f64)
    };

    // Endpoint-heavy: the range edges dominate.
    let endpoint_heavy = weights(0.7, 0.1, 0.05);
    let (endpoint_rate, _) = measure(endpoint_heavy, 4242);
    assert!(
        endpoint_rate > 0.6,
        "at endpoint=0.7 endpoints only {endpoint_rate:.4}; expected > 60%"
    );

    // Interesting-heavy: small magnitudes become common.
    let interesting_heavy = weights(0.0, 0.8, 0.0);
    let (_, small_rate) = measure(interesting_heavy, 4243);
    assert!(
        small_rate > 0.1,
        "at interesting=0.8 small values only {small_rate:.4}; expected > 10%"
    );

    // All-middle: the `min + 1` / `max - 1` edges (unique to the endpoint
    // category) disappear.
    let all_middle = weights(0.0, 0.0, 0.0);
    let mut rng = EngineRng::seeded(4244);
    let mut inner_edges = 0u64;
    for _ in 0..total {
        let v = sampler.biased_i128_sample(lo, hi, &mut rng, all_middle).unwrap();
        if v == lo + 1 || v == hi - 1 {
            inner_edges += 1;
        }
    }
    let inner_edge_rate = inner_edges as f64 / total as f64;
    assert!(
        inner_edge_rate < 0.001,
        "with all special weights zero the inner edges still appear \
         {inner_edge_rate:.4} of the time; endpoint category not switched off"
    );
}

#[test]
fn biased_string_sample_caps_constant_pool_probability() {
    let mut sc = StringChoice {
        intervals: IntervalSet::new(vec![(0, 0xD7FF), (0xE000, 0x10FFFF)]).unwrap(),
        min_size: 0,
        max_size: 100,
    };
    let sampler = sampler();
    let mut rng = EngineRng::seeded(9);
    let pool = global_constants_strings();
    let total = 2000;
    let mut from_pool = 0;
    for _ in 0..total {
        let v = sampler.biased_string_sample(&mut sc, &mut rng).unwrap();
        if pool.contains(&v) {
            from_pool += 1;
        }
    }
    let fraction = from_pool as f64 / total as f64;
    assert!(
        fraction < 0.56,
        "{fraction} of draws came from the constant pool; threshold not capped?"
    );
}

#[test]
fn constants_in_alphabet_is_memoised_on_the_interval_set() {
    let mut intervals = IntervalSet::new(vec![('a' as u32, 'z' as u32)]).unwrap();
    assert!(!intervals.is_memoised());

    let kept = constants_in_alphabet(&mut intervals);
    let place = kept.as_ptr() as usize;
    let mask = kept.clone();
    assert_eq!(mask.len(), global_constants_strings().len());
    for (cps, &contained) in global_constants_strings().iter().zip(&mask) {
        assert_eq!(contained, cps.iter().all(|&cp| intervals.contains(cp)));
    }
    assert!(mask.iter().any(|&m| m));
    assert!(mask.iter().any(|&m| !m));

    let again = constants_in_alphabet(&mut intervals);
    assert_eq!(again.as_ptr() as usize, place);
    assert!(intervals.is_memoised());

    let mut other = IntervalSet::new(vec![('A' as u32, 'Z' as u32)]).unwrap();
    assert!(!other.is_memoised());
    assert_ne!(constants_in_alphabet(&mut other), &mask);
}

#[test]
fn biased_string_sample_empty_alphabet_returns_empty_string() {
    let mut sc = StringChoice {
        intervals: IntervalSet::new(vec![]).unwrap(),
        min_size: 0,
        max_size: 0,
    };
    let sampler = sampler();
    let mut rng = EngineRng::seeded(7);
    for _ in 0..200 {
        assert_eq!(
            sampler.biased_string_sample(&mut sc, &mut rng).unwrap(),
            Vec::<u32>::new()
        );
    }
}

#[test]
fn biased_float_sample_full_finite_range_does_not_collapse_to_max() {
    let fc = float_choice(-f64::MAX, f64::MAX, false, false);
    let sampler = sampler();
    let mut rng = EngineRng::seeded(10);
    let total = 2000;
    let mut at_max = 0;
    let mut integral = 0;
    for _ in 0..total {
        let drawn = sampler.biased_float_sample(
            fc,
            FloatWidth::F64,
            &mut rng,
            usual_parameters().float,
        );
        let v = f64::from_bits(drawn.unwrap().bits);
        assert!(v.is_finite(), "drew non-finite {v}");
        if v.abs() == f64::MAX {
            at_max += 1;
        }
        if v == v.trunc() {
            integral += 1;
        }
    }
    let max_fraction = at_max as f64 / total as f64;
    assert!(
        max_fraction < 0.2,
        "{max_fraction} of draws were ±f64::MAX; range-width overflow regressed?"
    );
    let integral_fraction = integral as f64 / total as f64;
    assert!(
        integral_fraction > 0.2,
        "only {integral_fraction} of draws were integer-valued; default draw missing?"
    );
}

#[test]
fn biased_integer_sample_narrow_range_uses_uniform_fallback() {
    let sampler = sampler();
    let mut rng = EngineRng::seeded(7);
    let mut seen_zero = false;
    let mut seen_one = false;
    for _ in 0..200 {
        let params = usual_weights();
        let v = sampler.biased_i128_sample(0, 1, &mut rng, params).unwrap();
        assert!((0..=1).contains(&v), "out of range: {v}");
        match v {
            0 => seen_zero = true,
            1 => seen_one = true,
            _ => unreachable!(),
        }
        if seen_zero && seen_one {
            break;
        }
    }
    assert!(seen_zero && seen_one);
}

/// A small range of big integers.
#[test]
fn biased_integer_sample_erased_small_width_stays_in_range() {
    let sampler = sampler();
    let kind = IntegerChoice {
        min_value: big(0),
        max_value: big(200),
        shrink_towards: big(0),
    };
    let mut rng = EngineRng::seeded(21);
    for _ in 0..500 {
        let params = usual_weights();
        let v = sampler.biased_integer_sample(&kind, &mut rng, params).unwrap();
        assert!(kind.validate(&v), "out of range: {v:?}");
    }
}

/// A range that does not fit `i128`.
#[test]
fn biased_integer_sample_erased_bigint_beyond_i128_stays_in_range() {
    let sampler = sampler();
    let min = millionfold(i128::MIN);
    let max = millionfold(i128::MAX);
    let kind = IntegerChoice {
        min_value: min,
        max_value: max,
        shrink_towards: big(0),
    };
    let mut rng = EngineRng::seeded(22);
    for _ in 0..500 {
        let params = usual_weights();
        let v = sampler.biased_integer_sample(&kind, &mut rng, params).unwrap();
        assert!(kind.validate(&v), "out of range: {v:?}");
    }
}

#[test]
fn integer_sample_from_distribution_uniform_fallback_for_indistinguishable_bounds() {
    let sampler = sampler();
    let mut rng = EngineRng::seeded(13);
    let min = i128::MAX - 1000;
    let max = i128::MAX;
    let mut all_endpoints = true;
    for _ in 0..50 {
        let v = sampler.integer_sample_from_distribution(min, max, &mut rng).unwrap();
        assert!(v >= min && v <= max, "out of range: {v}");
        if v != min && v != max {
            all_endpoints = false;
        }
    }
    assert!(
        !all_endpoints,
        "uniform fallback should produce values across the range"
    );
}

/// A range of one value that does not fit `i128`.
#[test]
fn biased_integer_sample_erased_bigint_single_value() {
    let sampler = sampler();
    let fixed = millionfold(i128::MAX);
    let kind = IntegerChoice {
        min_value: fixed.clone(),
        max_value: fixed.clone(),
        shrink_towards: big(0),
    };
    let mut rng = EngineRng::seeded(23);
    for _ in 0..20 {
        let params = usual_weights();
        assert_eq!(
            sampler.biased_integer_sample(&kind, &mut rng, params).unwrap(),
            fixed.clone()
        );
    }
}

/// One decision costs one byte of entropy.
#[test]
fn weighted_boolean_sample_consumes_exactly_one_byte() {
    let mut a = EngineRng::seeded(12345);
    let mut b = EngineRng::seeded(12345);
    let result = weighted_boolean_sample(chance(0.5), &mut a);
    let byte = b.fill_byte();
    let falsey = (256.0_f64 * (1.0 - 0.5)).floor().max(1.0) as u32;
    assert_eq!(result, u32::from(byte) >= falsey);
    assert_eq!(a.next_u64(), b.next_u64());
}

/// The probability is that of `true`.
#[test]
fn weighted_boolean_sample_respects_probability() {
    let mut rng = EngineRng::seeded(99);
    let n = 5000usize;
    let high = (0..n)
        .filter(|_| weighted_boolean_sample(chance(0.9), &mut rng))
        .count();
    let low = (0..n)
        .filter(|_| weighted_boolean_sample(chance(0.1), &mut rng))
        .count();
    assert!(high > n * 3 / 4, "p=0.9 produced only {high}/{n} trues");
    assert!(low < n / 4, "p=0.1 produced {low}/{n} trues");
}

#[test]
fn draw_string_with_inverted_sizes_is_an_internal_error() {
    let (mut tc, mut family) = for_choices(&[]);
    let mut intervals = IntervalSet::new(vec![(0, 0xD7FF)]).unwrap();
    let msg = tc.draw_string(&mut family, &mut intervals, 5, 4)
        .unwrap_err().to_message();
    assert!(msg.contains("min_size <= max_size"), "{msg}");
    assert!(msg.contains("bug in hegel"), "{msg}");
}

#[test]
fn draw_string_empty_alphabet_zero_max_size_draws_empty_string() {
    let choices = vec![ChoiceValue::String(Vec::new())];
    let (mut tc, mut family) = for_choices(&choices);
    let mut intervals = IntervalSet::new(vec![]).unwrap();
    let s = tc.draw_string(&mut family, &mut intervals, 0, 0).ok().unwrap();
    assert_eq!(s, "");
}

#[test]
fn draw_string_empty_alphabet_zero_max_size_puns_invalid_prefix_to_empty() {
    let choices = vec![ChoiceValue::Integer(big(5))];
    let (mut tc, mut family) = for_choices(&choices);
    let mut intervals = IntervalSet::new(vec![]).unwrap();
    let s = tc.draw_string(&mut family, &mut intervals, 0, 0).ok().unwrap();
    assert_eq!(s, "");
}

#[test]
fn draw_string_with_empty_alphabet_and_nonzero_max_is_an_internal_error() {
    let (mut tc, mut family) = for_choices(&[]);
    let mut intervals = IntervalSet::new(vec![]).unwrap();
    let msg = tc.draw_string(&mut family, &mut intervals, 0, 4)
        .unwrap_err().to_message();
    assert!(msg.contains("empty alphabet"), "{msg}");
    assert!(msg.contains("bug in hegel"), "{msg}");
}

#[test]
fn weighted_boolean_sample_keeps_true_reachable_for_tiny_p() {
    let mut rng = EngineRng::seeded(3);
    let trues = (0..20_000)
        .filter(|_| weighted_boolean_sample(chance(1e-300), &mut rng))
        .count();
    assert!(trues > 0, "true must stay reachable for any p > 0");
    assert!(trues < 400, "tiny p must stay rare, got {trues}/20000");
}

#[test]
fn spans_trivial_returns_false_for_a_stale_out_of_range_span() {
    let mut spans = Spans::new();
    spans.push(Span {
        start: 5,
        end: 7,
        label: 1,
        depth: 0,
        parent: None,
        discarded: false,
    });
    assert!(
        !spans.trivial(0, &[]).unwrap(),
        "a span past the end of the nodes must not count as trivial"
    );
}

#[test]
fn draw_fresh_id_hands_out_sequential_ids_during_generation() {
    let (mut tc, mut family) = new_random(0);
    assert_eq!(tc.draw_fresh_id(&mut family).unwrap(), 0);
    assert_eq!(tc.draw_fresh_id(&mut family).unwrap(), 1);
    assert_eq!(tc.draw_fresh_id(&mut family).unwrap(), 2);
    assert!(tc.nodes.iter().all(|n| !n.was_forced));
    assert_eq!(fresh_id_kind_max(&tc, 0), big(1));
    assert_eq!(fresh_id_kind_max(&tc, 1), big(2));
    assert_eq!(fresh_id_kind_max(&tc, 2), big(3));
}

#[test]
fn draw_fresh_id_keeps_the_hole_when_the_first_addition_is_deleted() {
    let choices = [
        ChoiceValue::Integer(big(1)),
        ChoiceValue::Integer(big(2)),
        ChoiceValue::Integer(big(3)),
    ];
    let (mut tc, mut family) = for_choices(&choices);
    assert_eq!(tc.draw_fresh_id(&mut family).unwrap(), 1);
    assert_eq!(tc.draw_fresh_id(&mut family).unwrap(), 2);
    assert_eq!(tc.draw_fresh_id(&mut family).unwrap(), 3);
}

#[test]
fn draw_fresh_id_keeps_the_hole_when_a_middle_addition_is_deleted() {
    let choices = [
        ChoiceValue::Integer(big(0)),
        ChoiceValue::Integer(big(2)),
    ];
    let (mut tc, mut family) = for_choices(&choices);
    assert_eq!(tc.draw_fresh_id(&mut family).unwrap(), 0);
    assert_eq!(tc.draw_fresh_id(&mut family).unwrap(), 2);
}

/// The window leaves room for one id to be missing, so that what comes after a
/// deletion keeps its ids.
#[test]
fn draw_fresh_id_does_not_cascade_after_a_single_deletion() {
    let choices = [
        ChoiceValue::Integer(big(1)),
        ChoiceValue::Integer(big(2)),
        ChoiceValue::Integer(big(3)),
        ChoiceValue::Integer(big(4)),
    ];
    let (mut tc, mut family) = for_choices(&choices);
    let ids: Vec<i64> = (0..4).map(|_| tc.draw_fresh_id(&mut family).unwrap()).collect();
    assert_eq!(ids, vec![1, 2, 3, 4]);
}

/// Where two additions in a row are gone, what comes after falls outside the
/// window and gets the smallest unused id.
#[test]
fn draw_fresh_id_repairs_a_gap_of_three_to_small_ids() {
    let choices = [
        ChoiceValue::Integer(big(2)),
        ChoiceValue::Integer(big(3)),
    ];
    let (mut tc, mut family) = for_choices(&choices);
    assert_eq!(tc.draw_fresh_id(&mut family).unwrap(), 0);
    assert_eq!(tc.draw_fresh_id(&mut family).unwrap(), 1);
}

#[test]
fn draw_fresh_id_repairs_a_used_prefix_id_to_the_smallest_unused() {
    let choices = [
        ChoiceValue::Integer(big(0)),
        ChoiceValue::Integer(big(0)),
        ChoiceValue::Integer(big(1)),
    ];
    let (mut tc, mut family) = for_choices(&choices);
    assert_eq!(tc.draw_fresh_id(&mut family).unwrap(), 0);
    assert_eq!(tc.draw_fresh_id(&mut family).unwrap(), 1);
    assert_eq!(tc.draw_fresh_id(&mut family).unwrap(), 2);
}

#[test]
fn draw_fresh_id_fills_gaps_when_generating_past_the_prefix() {
    let choices = [ChoiceValue::Integer(big(1))];
    let (tc, mut family): (Case, FamilyCore) =
        NativeTestCase::for_choices_and_template(&choices, None, None, BUFFER_SIZE, None, CLONE_DEPTH);
    let mut tc = tc.with_random_and_params(
        &mut family,
        EngineRng::seeded(0),
        Arc::new(sampler()),
        usual_parameters(),
    );
    assert_eq!(tc.draw_fresh_id(&mut family).unwrap(), 1);
    assert_eq!(tc.draw_fresh_id(&mut family).unwrap(), 0);
    assert_eq!(tc.draw_fresh_id(&mut family).unwrap(), 2);
    assert_eq!(tc.draw_fresh_id(&mut family).unwrap(), 3);
}

/// A clone goes on where the ids of the family left off.
#[test]
fn draw_fresh_id_continues_across_clone_streams_without_collisions() {
    let (mut parent, mut family) = new_random(0);
    assert_eq!(parent.draw_fresh_id(&mut family).unwrap(), 0);
    assert_eq!(parent.draw_fresh_id(&mut family).unwrap(), 1);
    assert_eq!(parent.draw_fresh_id(&mut family).unwrap(), 2);
    let place = parent.clone_stream(&mut family).unwrap();
    let child = &mut parent.clone_children[place].1;
    assert_eq!(child.draw_fresh_id(&mut family).unwrap(), 3);
    assert_eq!(fresh_id_kind_max(child, 0), big(4));
    assert_eq!(child.draw_fresh_id(&mut family).unwrap(), 4);
}

#[test]
fn draw_fresh_id_puns_a_mismatched_prefix_kind() {
    let (mut tc, mut family) = for_choices(&[ChoiceValue::Boolean(true)]);
    assert_eq!(tc.draw_fresh_id(&mut family).unwrap(), 0);
}

#[test]
fn draw_fresh_id_notifies_the_observer() {
    let (tc, mut family) = observed(&[], 4);
    let mut tc = tc.with_random_and_params(
        &mut family,
        EngineRng::seeded(0),
        Arc::new(sampler()),
        usual_parameters(),
    );
    assert_eq!(tc.draw_fresh_id(&mut family).unwrap(), 0);
    assert_eq!(tc.observer.unwrap().integer, Some((big(0), false)));
}

#[test]
fn fresh_ids_track_the_smallest_unused_id_across_gaps() {
    let mut used = FreshIds::default();
    assert_eq!(used.smallest_unused(), 0);
    assert_eq!(used.max_used(), -1);
    used.insert(1);
    assert_eq!(used.smallest_unused(), 0);
    assert!(used.contains(1));
    assert!(!used.contains(0));
    used.insert(0);
    used.insert(3);
    assert_eq!(used.smallest_unused(), 2);
    assert_eq!(used.max_used(), 3);
    used.insert(2);
    assert_eq!(used.smallest_unused(), 4);
    used.insert(2);
    assert_eq!(used.smallest_unused(), 4);
}

#[test]
fn draw_from_set_generates_a_member_and_records_it_by_value() {
    let members = [4, 9];
    for seed in 0..10 {
        let (mut tc, mut family) = new_random(seed);
        for i in 0..10 {
            assert_eq!(tc.draw_fresh_id(&mut family).unwrap(), i);
        }
        let chosen = tc.draw_from_set(&mut family, &members).unwrap();
        assert!(members.contains(&chosen));
        assert_eq!(
            tc.nodes.last().unwrap().value(),
            ChoiceValue::Integer(BigInt::from_i64(chosen))
        );
        assert_eq!(fresh_id_kind_max(&tc, tc.nodes.len() - 1), big(10));
    }
}

#[test]
fn draw_from_set_replays_a_surviving_member() {
    let (mut tc, mut family) = tc_with_fresh_ids(3, &[1]);
    assert_eq!(tc.draw_from_set(&mut family, &[0, 1, 2]).unwrap(), 1);
}

#[test]
fn draw_from_set_repairs_a_dead_value_to_the_largest_member_below() {
    let (mut tc, mut family) = tc_with_fresh_ids(3, &[1]);
    assert_eq!(tc.draw_from_set(&mut family, &[0, 2]).unwrap(), 0);
    assert_eq!(
        tc.nodes.last().unwrap().value(),
        ChoiceValue::Integer(big(0))
    );
}

#[test]
fn draw_from_set_repairs_a_value_below_all_members_to_the_smallest() {
    let (mut tc, mut family) = tc_with_fresh_ids(3, &[0]);
    assert_eq!(tc.draw_from_set(&mut family, &[1, 2]).unwrap(), 1);
}

/// A value outside the window gives way to the smallest member.
#[test]
fn draw_from_set_puns_a_value_beyond_the_window_to_the_smallest_member() {
    let (mut tc, mut family) = tc_with_fresh_ids(2, &[4]);
    assert_eq!(tc.draw_from_set(&mut family, &[0, 1]).unwrap(), 0);
}

#[test]
fn draw_from_set_accepts_unsorted_duplicated_members() {
    let (mut tc, mut family) = tc_with_fresh_ids(3, &[1]);
    assert_eq!(tc.draw_from_set(&mut family, &[2, 1, 1, 0]).unwrap(), 1);
}

#[test]
fn draw_from_set_notifies_the_observer() {
    let (tc, mut family) = observed(&[], 4);
    let mut tc = tc.with_random_and_params(
        &mut family,
        EngineRng::seeded(0),
        Arc::new(sampler()),
        usual_parameters(),
    );
    assert_eq!(tc.draw_fresh_id(&mut family).unwrap(), 0);
    let chosen = tc.draw_from_set(&mut family, &[0]).unwrap();
    assert_eq!(chosen, 0);
    assert_eq!(tc.observer.unwrap().integer, Some((big(0), false)));
}

#[test]
fn draw_from_set_with_no_members_is_an_internal_error() {
    let (mut tc, mut family) = new_random(0);
    assert!(tc.draw_from_set(&mut family, &[]).is_err());
}

#[test]
fn draw_from_set_with_negative_members_is_an_internal_error() {
    let (mut tc, mut family) = new_random(0);
    assert!(tc.draw_from_set(&mut family, &[-1, 3]).is_err());
}

#[test]
fn draw_from_set_with_members_beyond_the_registry_is_an_internal_error() {
    let (mut tc, mut family) = new_random(0);
    assert_eq!(tc.draw_fresh_id(&mut family).unwrap(), 0);
    assert!(tc.draw_from_set(&mut family, &[7]).is_err());
}

#[test]
fn native_variables_add_active_and_consume_round_trip() {
    let mut vars = NativeVariables::new();
    vars.add(0);
    vars.add(1);
    vars.add(2);
    assert_eq!(vars.active(), vec![0, 1, 2]);
    vars.consume(1);
    assert_eq!(vars.active(), vec![0, 2]);
    vars.consume(2);
    assert_eq!(vars.active(), vec![0]);
    vars.consume(0);
    assert_eq!(vars.active(), Vec::<i64>::new());
}

#[test]
fn spans_nested_to_max_depth_stay_valid() {
    let (mut tc, mut family) = for_choices(&[]);
    for _ in 0..MAX_DEPTH {
        tc.start_span(&mut family, 1);
    }
    assert_eq!(family.status(), None);
}

#[test]
fn spans_nested_past_max_depth_conclude_invalid() {
    let (mut tc, mut family) = for_choices(&[]);
    for _ in 0..=MAX_DEPTH {
        tc.start_span(&mut family, 1);
    }
    assert_eq!(family.status(), Some(Status::Invalid));
}

#[test]
fn nested_spans_lie_in_each_other() {
    let (mut tc, mut family) = for_choices(&[]);
    for k in 0..2500usize {
        assert_eq!(tc.start_span(&mut family, k as u64), k);
        assert_eq!(family.status().is_some(), k >= MAX_DEPTH as usize);
    }
    for k in 0..=MAX_DEPTH as usize {
        let span = tc.structure.spans.get(k).unwrap();
        assert_eq!((span.depth as usize, span.label as usize), (k, k));
        assert_eq!(span.parent, k.checked_sub(1));
    }
    assert_eq!(family.status(), Some(Status::Invalid));
}

#[test]
fn log_uniform_helpers_weight_binades_evenly() {
    let mut rng = EngineRng::seeded(77);
    let (lo, hi) = (float_pow2(-10), float_pow2(10));
    let mut counts = [0u32; 21];
    let n = 42_000;
    for _ in 0..n {
        let v = magnitude(lo, hi, &mut rng);
        assert!((lo..=hi).contains(&v), "{v}");
        counts[((v.to_bits() >> 52) as i64 - 1013) as usize] += 1;
    }
    for (i, &c) in counts.iter().enumerate() {
        let share = c as f64 / n as f64;
        assert!((share - 1.0 / 21.0).abs() < 0.015, "binade {i}: {share}");
    }
    for _ in 0..1000 {
        let v = magnitude(1.5, 1.75, &mut rng);
        assert!((1.5..=1.75).contains(&v), "{v}");
        let s = magnitude(5e-324, 1e-320, &mut rng);
        assert!(s.is_subnormal() && s <= 1e-320, "{s:e}");
    }

    let mut counts = [0u32; 11];
    let n = 44_000;
    for _ in 0..n {
        let v = log_uniform_integer(0, 1023, &mut rng);
        counts[(64 - v.leading_zeros()) as usize] += 1;
    }
    for (b, &c) in counts.iter().enumerate() {
        let share = c as f64 / n as f64;
        assert!((share - 1.0 / 11.0).abs() < 0.015, "bucket {b}: {share}");
    }
    for _ in 0..1000 {
        let v = log_uniform_integer(6, 9, &mut rng);
        assert!((6..=9).contains(&v), "{v}");
    }
    assert_eq!(log_uniform_integer(1 << 53, 1 << 53, &mut rng), 1 << 53);
}

#[test]
fn float_below_is_the_finite_predecessor() {
    assert_eq!(float_below(1.0), 1.0f64.next_down());
    assert_eq!(float_below(0.1), 0.1f64.next_down());
    assert_eq!(float_below(float_pow2(513)), float_pow2(513).next_down());
    assert!(float_below(f64::MIN_POSITIVE).is_subnormal());
}

#[test]
fn weighted_index_sample_follows_the_weights_and_skips_excluded_entries() {
    let mut rng = EngineRng::seeded(7);
    let weights = vec![1, 3, 0, 0];
    let mut counts = [0usize; 4];
    for _ in 0..6000 {
        counts[weighted_index_sample(&weights, &mut rng).unwrap()] += 1;
    }
    assert_eq!(counts[2], 0);
    assert_eq!(counts[3], 0);
    assert!(
        counts[1] > counts[0] * 2 && counts[1] < counts[0] * 4,
        "expected roughly a 1:3 split, got {counts:?}"
    );
}

#[test]
fn weighted_index_sample_of_a_single_positive_entry_is_that_entry() {
    let mut rng = EngineRng::seeded(7);
    for _ in 0..100 {
        assert_eq!(weighted_index_sample(&vec![0, 0, 2], &mut rng), Some(2));
    }
}

#[test]
fn draw_index_weighted_records_an_ordinary_index_choice() {
    let (mut ntc, mut family) = new_random(3);
    let mut seen = [false; 3];
    for _ in 0..50 {
        let i = ntc.draw_index_weighted(&mut family, &vec![0, 5, 5]).unwrap();
        assert_ne!(i, 0);
        seen[i] = true;
    }
    assert!(seen[1] && seen[2]);
    let node = &ntc.nodes[0];
    assert!(!node.was_forced);
    assert_eq!(kind_bounds(&ntc, 0), (BigInt::zero(), big(2)));
}

#[test]
fn draw_index_weighted_forces_the_only_positive_entry() {
    // prefix that should be ignored
    let (mut ntc, mut family) = for_choices(&[ChoiceValue::Integer(big(0))]);
    assert_eq!(ntc.draw_index_weighted(&mut family, &vec![0, 5, 0]).unwrap(), 1);
    let node = &ntc.nodes[0];
    assert!(node.was_forced);
    assert_eq!(node.value(), ChoiceValue::Integer(big(1)));
    assert_eq!(kind_bounds(&ntc, 0), (BigInt::zero(), big(2)));
}

#[test]
fn draw_index_weighted_replays_the_prefix_even_for_an_excluded_entry() {
    let (mut ntc, mut family) = for_choices(&[ChoiceValue::Integer(big(0))]);
    assert_eq!(ntc.draw_index_weighted(&mut family, &vec![0, 1, 1]).unwrap(), 0);
}

#[test]
fn draw_index_weighted_simplest_is_zero() {
    let (mut ntc, mut family) = for_simplest(8);
    assert_eq!(ntc.draw_index_weighted(&mut family, &vec![0, 1, 1]).unwrap(), 0);
}
