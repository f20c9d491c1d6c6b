//! Laws of the library on concrete values.

use hegel::bignum::{BigInt, BigUint, Comparison};
use hegel::choices::{
    BooleanChoice, BytesChoice, ChoiceNode, ChoiceTemplate, ChoiceValue, IntegerChoice,
    Probability, StringChoice, PROBABILITY_ONE,
};
use hegel::civil::{
    civil_from_days, date_exists, days_from_civil, days_in_month, time_from_ns, time_to_ns, Date,
    Time,
};
use hegel::collections::{length_p_continue, ManyState};
use hegel::decimal::{append_integer, append_natural};
use hegel::errors::{EngineError, InternalError, RunError, Status};
use hegel::family::FamilyCore;
use hegel::float_order::float_order;
use hegel::float_rounding::{nearest_single, round_to_single};
use hegel::float_categories::endpoint_candidates;
use hegel::float_grids::FloatWidth;
use hegel::float_sampling::{digits_of, numbers_with_digits};
use hegel::float_weights::GenerationParameters;
use hegel::floats::{next_down, next_up};
use hegel::integer_constants::{global_constants_integers, interesting_integers, IntegerPools};
use hegel::intervalsets::IntervalSet;
use hegel::labels::{draw_label, label_from_bytes, DrawKind};
use hegel::order::{compare_keys, sort_key};
use hegel::recursion::recursion_branch_probability;
use hegel::rng::EngineRng;
use hegel::sampling::{
    endpoints, nasty_threshold, select_category, IntegerCategory, IntegerGenerationParameters,
};
use hegel::sequence_sampling::{
    boolean_from_bits, boolean_from_byte, bytes_candidate, index_at, total_weight,
};
use hegel::shrinker::schedule::{shrink_passes, ShrinkPass};
use hegel::shrinker::search::{BinSearchDownBig, FindInteger};
use hegel::shrinker::{ShrinkHalt, ShrinkProbe, ShrinkRun, Shrinker};
use hegel::signed_bytes::{from_signed_bytes_le, to_signed_bytes_le};
use hegel::spans::{structural_coverage, Span, Spans};
use hegel::structure::SpanStructure;
use hegel::text::codepoints_to_string;
use hegel::text_constants::{codepoints_of, global_constants_strings};
use hegel::variables::NativeVariables;

fn big(v: i128) -> BigInt {
    BigInt::from_i128(v)
}

fn int_kind(min: i128, max: i128) -> IntegerChoice {
    IntegerChoice { min_value: big(min), max_value: big(max), shrink_towards: big(0) }
}

fn int_node(v: i128, min: i128, max: i128) -> ChoiceNode {
    ChoiceNode::integer(int_kind(min, max), big(v), false)
}

fn written(v: &BigInt) -> String {
    let mut s = String::new();
    append_integer(&mut s, v);
    s
}

#[test]
fn big_numbers_add_and_subtract() {
    let a = big(i128::MAX);
    let sum = a.plus(&a);
    assert_eq!(written(&sum), "340282366920938463463374607431768211454");
    assert_eq!(written(&sum.minus(&a)), i128::MAX.to_string());
    assert_eq!(written(&big(i128::MIN)), i128::MIN.to_string());
    assert_eq!(sum.to_i128(), None);
    assert_eq!(big(-5).negated().to_i128(), Some(5));
    assert_eq!(big(-5).magnitude().to_u128(), Some(5));
    assert!(big(-5).less(&big(3)) && !big(3).less(&big(3)) && big(3).at_most(&big(3)));
    assert_eq!(big(3).compare(&big(-3)), Comparison::Greater);
    assert_eq!(big(-1).larger(&big(-2)).to_i128(), Some(-1));
}

#[test]
fn big_naturals_shift_and_divide() {
    let n = BigUint::from_u128(0xdead_beef);
    assert_eq!(n.bits(), 32);
    assert_eq!(n.shift_left(100).shift_right(100).to_u128(), Some(0xdead_beef));
    assert_eq!(n.low_bits(8).to_u128(), Some(0xef));
    assert_eq!(BigUint::power_of_two(70).bits(), 71);
    let (q, r) = n.divide_small(10);
    assert_eq!((q.to_u128(), r), (Some(0xdead_beef / 10), (0xdead_beefu64 % 10) as u32));
    assert_eq!(BigUint::from_bytes_le(&[0xef, 0xbe]).to_u128(), Some(0xbeef));
    assert_eq!(n.to_bytes_le(4), vec![0xef, 0xbe, 0xad, 0xde]);
    let mut s = String::new();
    append_natural(&mut s, &BigUint::zero());
    assert_eq!(s, "0");
}

#[test]
fn signed_bytes_are_the_shortest_that_give_the_number_back() {
    for v in [0i128, 1, -1, 127, 128, -128, -129, 255, 256, i64::MIN as i128, i128::MAX, i128::MIN] {
        let bytes = to_signed_bytes_le(&big(v));
        assert_eq!(from_signed_bytes_le(&bytes).to_i128(), Some(v));
        if bytes.len() > 1 {
            let shorter = from_signed_bytes_le(&bytes[..bytes.len() - 1]);
            assert_ne!(shorter.to_i128(), Some(v));
        }
    }
    assert_eq!(to_signed_bytes_le(&big(128)), vec![0x80, 0x00]);
    assert_eq!(to_signed_bytes_le(&big(-128)), vec![0x80]);
}

#[test]
fn choices_have_an_order() {
    let kind = int_kind(-3, 10);
    assert_eq!(kind.simplest().to_i128(), Some(0));
    assert_eq!(kind.unit().to_i128(), Some(1));
    assert!(kind.validate(&big(-3)) && !kind.validate(&big(11)));
    let node = int_node(2, -3, 10).data;
    let mut seen = Vec::new();
    let most = node.max_index().unwrap().to_u128().unwrap();
    for i in 0..=most {
        match node.from_index(&BigUint::from_u128(i)) {
            Some(ChoiceValue::Integer(v)) => seen.push(v.to_i128().unwrap()),
            _ => panic!("no value at {i}"),
        }
    }
    assert_eq!(seen.len(), 14);
    assert_eq!(&seen[..7], &[0, 1, -1, 2, -2, 3, -3]);
    seen.sort();
    assert_eq!(seen, (-3..=10).collect::<Vec<i128>>());
    assert_eq!(node.to_index().unwrap().to_u128(), Some(3));
}

#[test]
fn shorter_and_then_simpler_choices_come_first() {
    let a = [int_node(9, 0, 10)];
    let b = [int_node(0, 0, 10), int_node(0, 0, 10)];
    let c = [int_node(0, 0, 10), int_node(1, 0, 10)];
    let compare = |x: &[ChoiceNode], y: &[ChoiceNode]| {
        (x.len(), compare_keys(&sort_key(x), &sort_key(y)))
    };
    assert_eq!(compare(&b, &c).1, Comparison::Less);
    assert_eq!(compare(&c, &b).1, Comparison::Greater);
    assert_eq!(compare(&b, &b).1, Comparison::Equal);
    assert!(compare(&a, &b).0 < b.len());
}

#[test]
fn bytes_booleans_and_strings_have_simplest_values() {
    let bytes = BytesChoice { min_size: 2, max_size: 4 };
    assert_eq!(bytes.simplest(), vec![0, 0]);
    assert!(bytes.validate(&vec![1, 2, 3]) && !bytes.validate(&vec![1]));
    let certain = BooleanChoice { p: Probability { numerator: PROBABILITY_ONE } };
    assert!(certain.simplest() && !certain.validate(false));
    let even = BooleanChoice { p: Probability { numerator: PROBABILITY_ONE / 2 } };
    assert!(!even.simplest() && even.unit() && even.validate(true));
    let text = StringChoice {
        intervals: IntervalSet::new(vec![('a' as u32, 'z' as u32)]).unwrap(),
        min_size: 1,
        max_size: 3,
    };
    let simplest = text.simplest().unwrap();
    assert_eq!(simplest.len(), 1);
    assert!(text.validate(&simplest));
    assert!(!text.validate(&vec!['A' as u32]));
}

#[test]
fn templates_are_positive() {
    assert_eq!(ChoiceTemplate::simplest(Some(2)).unwrap().count, Some(2));
    assert!(ChoiceTemplate::simplest(Some(0)).is_err());
}

#[test]
fn alphabets_are_permuted_by_their_shrink_order() {
    let set = IntervalSet::new(vec![(0x30, 0x39), (0x61, 0x66), (0x1f600, 0x1f602)]).unwrap();
    assert_eq!(set.len(), 19);
    let mut seen = Vec::new();
    for i in 0..set.len() {
        let cp = set.char_in_shrink_order(i);
        assert_eq!(set.position_in_shrink_order(cp), i);
        seen.push(cp);
    }
    assert_eq!(seen[0], '0' as u32);
    seen.sort();
    let all: Vec<u32> = (0..set.len()).map(|i| set.get(i)).collect();
    assert_eq!(seen, all);
    assert_eq!(set.count_below(0x61), 10);
    assert!(set.contains(0x1f601) && !set.contains(0x40));
    assert!(IntervalSet::new(vec![]).unwrap().is_empty());
}

#[test]
fn texts_drop_what_is_no_character() {
    assert_eq!(codepoints_to_string(&vec![0x61, 0xd800, 0x62]), "ab");
    assert_eq!(codepoints_of("h\u{e9}"), vec![0x68, 0xe9]);
    let texts = global_constants_strings();
    assert!(!texts.is_empty());
}

#[test]
fn labels_of_draws_are_those_of_their_names() {
    assert_eq!(draw_label(DrawKind::Integer), label_from_bytes(b"hegel.integer"));
    assert_ne!(draw_label(DrawKind::Integer), draw_label(DrawKind::Boolean));
    assert_eq!(structural_coverage(5).label, 5);
}

#[test]
fn days_and_dates_follow_each_other() {
    let mut date = Date { year: 1999, month: 2, day: 27 };
    let mut day = days_from_civil(&date);
    for _ in 0..800 {
        day += 1;
        let next = civil_from_days(day);
        if next.day != 1 {
            assert_eq!((next.year, next.month, next.day), (date.year, date.month, date.day + 1));
        } else {
            assert_eq!(i64::from(date.day), days_in_month(date.year, date.month));
        }
        date = next;
    }
    assert!(date_exists(&Date { year: 2000, month: 2, day: 29 }));
    assert!(!date_exists(&Date { year: 1900, month: 2, day: 29 }));
    let t = Time { hour: 23, minute: 59, second: 59, nanosecond: 999_999_999 };
    assert_eq!(time_to_ns(&t), 86_399_999_999_999);
    assert_eq!(time_from_ns(86_399_999_999_999), t);
}

#[test]
fn collections_are_fixed_or_open() {
    let fixed = length_p_continue(3, Some(3)).numerator as f64 / PROBABILITY_ONE as f64;
    assert!((fixed - 0.99).abs() < 1e-12);
    let bounded = length_p_continue(0, Some(4)).numerator as f64 / PROBABILITY_ONE as f64;
    assert!((bounded - 0.75).abs() < 1e-12);
    let open = length_p_continue(0, None).numerator as f64 / PROBABILITY_ONE as f64;
    assert!((open - 5.0 / 6.0).abs() < 1e-9);
    let state = ManyState::new(2, Some(10));
    assert_eq!((state.count, state.rejections, state.force_stop), (0, 0, false));
}

#[test]
fn branches_are_priced_by_the_leaves() {
    let small = recursion_branch_probability(2, 1, 2).numerator;
    let large = recursion_branch_probability(2, 1, 100).numerator;
    assert!(small < large && large < PROBABILITY_ONE);
}

#[test]
fn the_first_conclusion_of_a_family_stands() {
    let mut family = FamilyCore::new(2, 8);
    assert!(family.try_take_draw() && family.try_take_draw() && !family.try_take_draw());
    family.conclude(Status::Invalid, None);
    family.conclude(Status::Valid, None);
    assert_eq!(family.status(), Some(Status::Invalid));
}

#[test]
fn weights_of_a_family_are_set_once() {
    let weights = |a: u64, b: u64, c: u64| {
        let mut numbers = [0; 20];
        numbers[..3].copy_from_slice(&[a, b, c]);
        numbers[19] = a + b + c;
        GenerationParameters::from_numbers(numbers)
    };
    let mut family = FamilyCore::new(2, 8);
    assert_eq!(family.generation_parameters(weights(1, 2, 3)), weights(1, 2, 3));
    family.set_generation_parameters(weights(4, 5, 6));
    family.set_generation_parameters(weights(7, 8, 9));
    assert_eq!(family.generation_parameters(weights(1, 2, 3)), weights(4, 5, 6));
}

#[test]
fn closing_a_span_undoes_opening_it() {
    let mut s = SpanStructure::new();
    s.open(0, 1);
    s.open(2, 2);
    assert_eq!(s.span_depth(), 2);
    s.close(5, false);
    s.close(6, true);
    assert_eq!(s.span_depth(), 0);
    let spans = s.spans.as_slice();
    assert_eq!((spans[0].start, spans[0].end, spans[0].discarded), (0, 6, true));
    assert_eq!((spans[1].start, spans[1].end, spans[1].parent), (2, 5, Some(0)));
    assert!(s.has_discards);
    s.freeze(6);
    assert_eq!(s.spans.as_slice().len(), 2);
}

#[test]
fn consuming_takes_one_variable() {
    let mut v = NativeVariables::new();
    for id in [5, 2, 9] {
        v.add(id);
    }
    v.consume(2);
    assert_eq!(v.active(), vec![5, 9]);
    v.consume(2);
    assert_eq!(v.active(), vec![5, 9]);
}

#[test]
fn floats_have_neighbours() {
    for v in [0.0f64, -0.0, 1.0, -1.0, f64::MAX, f64::MIN_POSITIVE, 5e-324, -5e-324] {
        assert_eq!(f64::from_bits(next_up(v.to_bits())), v.next_up());
        assert_eq!(f64::from_bits(next_down(v.to_bits())), v.next_down());
    }
    assert_eq!(next_up(f64::INFINITY.to_bits()), f64::INFINITY.to_bits());
}

#[test]
fn rounding_agrees_with_the_machine() {
    let mut rng = EngineRng::seeded(17);
    let mut values = vec![
        0.0f64,
        -0.0,
        1e-46,
        2f64.powi(-150),
        2f64.powi(-149),
        1.5 * 2f64.powi(-149),
        2.5 * 2f64.powi(-149),
        2f64.powi(-126),
        f32::MAX as f64,
        f32::MAX as f64 + 2f64.powi(102),
        f32::MAX as f64 + 2f64.powi(103),
        f64::MAX,
        f64::INFINITY,
        f64::NEG_INFINITY,
    ];
    for _ in 0..5000 {
        let v = f64::from_bits(rng.next_u64());
        if !v.is_nan() {
            values.push(v);
        }
        values.push(f64::from(f32::from_bits((rng.next_u64() >> 34) as u32 | 1)) * 1.0000000298);
    }
    for v in values {
        assert_eq!(nearest_single(v.to_bits()), (v as f32).to_bits(), "{v:e}");
        assert_eq!(round_to_single(v.to_bits()), f64::from(v as f32).to_bits(), "{v:e}");
    }
}

#[test]
fn binary_digits_are_counted() {
    for v in [0u64, 1, 2, 3, 4, 1023, 1024, u64::MAX] {
        let digits = digits_of(v);
        assert_eq!(digits, 64 - v.leading_zeros());
        let (first, last) = numbers_with_digits(digits);
        assert!(first <= v && v <= last);
    }
    assert_eq!(numbers_with_digits(64), (1 << 63, u64::MAX));
}

#[test]
fn ends_of_a_range_fit_their_kind() {
    let value = |v: f64| hegel::choices::FloatValue { bits: v.to_bits(), order: 0 };
    let kind = hegel::choices::FloatChoice {
        min_bits: 0.0f64.to_bits(),
        max_bits: 10.0f64.to_bits(),
        allow_nan: false,
        allow_infinity: false,
        smallest_magnitude_bits: 5e-324f64.to_bits(),
        simplest: value(0.0),
        unit: value(1.0),
    };
    let (step_up, step_down) = (1.0f64.to_bits(), 9.0f64.to_bits());
    let found: Vec<f64> = endpoint_candidates(&kind, FloatWidth::F64, step_up, step_down)
        .iter()
        .map(|&b| f64::from_bits(b))
        .collect();
    let expected = [0.0, 10.0, 5e-324, 1.0, 9.0, 10.0f64.next_down()];
    assert_eq!(found, expected);
}

#[test]
fn random_numbers_keep_to_their_ranges_and_seeds() {
    let mut a = EngineRng::seeded(1);
    let mut b = EngineRng::seeded(1);
    let mut c = EngineRng::seeded(2);
    assert_eq!(a.next_u64(), b.next_u64());
    assert_ne!(a.next_u64(), c.next_u64());
    let mut low = [0usize; 3];
    for _ in 0..300 {
        assert!(a.unit() < PROBABILITY_ONE);
        low[a.index(3)] += 1;
        assert!((5..9).contains(&a.range(5, 9)));
        assert!((5..=9).contains(&a.range_inclusive(5, 9)));
        assert!((-5..=9).contains(&a.range_wide(-5, 9)));
    }
    assert!(low.iter().all(|&n| n > 50));
    assert!((0..64).map(|_| a.byte()).any(|x| x != 0));
    assert_ne!(a.spawn().next_u64(), b.spawn().next_u64());
}

#[test]
fn integers_are_chosen_by_category() {
    let p = |numerator| Probability { numerator };
    let w = IntegerGenerationParameters { endpoint: p(10), interesting: p(10), diffuse: p(10) };
    assert_eq!(select_category(9, w, true, true), IntegerCategory::Endpoint);
    assert_eq!(select_category(10, w, true, true), IntegerCategory::Interesting);
    assert_eq!(select_category(10, w, false, true), IntegerCategory::Diffuse);
    assert_eq!(select_category(29, w, true, true), IntegerCategory::Diffuse);
    assert_eq!(select_category(30, w, true, true), IntegerCategory::Middle);
    assert_eq!(endpoints(0, 10), vec![0, 10, 1, 9]);
    assert_eq!(endpoints(4, 4), vec![4]);
    assert_eq!(nasty_threshold(3, p(7)), 21);
    assert_eq!(nasty_threshold(usize::MAX, p(PROBABILITY_ONE)), PROBABILITY_ONE / 2);
}

#[test]
fn pools_of_integers_are_sorted() {
    let pools = IntegerPools::new();
    for pool in [pools.interesting(), pools.large(), pools.nasty()] {
        assert!(pool.windows(2).all(|w| w[0] < w[1]));
    }
    assert!(interesting_integers().iter().all(|v| pools.interesting().contains(v)));
    assert!(global_constants_integers().iter().all(|v| pools.nasty().contains(v)));
    assert!(pools.nasty().contains(&i128::from(i64::MAX)));
}

#[test]
fn sequences_are_sampled_from_candidates() {
    let kind = BytesChoice { min_size: 0, max_size: 3 };
    assert_eq!(bytes_candidate(&kind, 0), Vec::<u8>::new());
    assert_eq!(bytes_candidate(&kind, 1), vec![0]);
    assert_eq!(bytes_candidate(&kind, 2), vec![0xff]);
    let half = Probability { numerator: PROBABILITY_ONE / 2 };
    assert!(!boolean_from_byte(half, 127) && boolean_from_byte(half, 128));
    assert_ne!(boolean_from_bits(half, 0), boolean_from_bits(half, u64::MAX));
    let weights = vec![1, 0, 3];
    assert_eq!(total_weight(&weights), Some(4));
    assert_eq!([0, 1, 2, 3].map(|t| index_at(&weights, t)), [0, 2, 2, 2]);
}

#[test]
fn searches_find_the_last_success() {
    for goal in [0usize, 1, 3, 4, 5, 17, 1000] {
        let mut search = FindInteger::new();
        while let Some(n) = search.probe() {
            search.record(n <= goal);
        }
        assert_eq!(search.found(), goal);
    }
    for goal in [0u128, 1, 7, 99] {
        let mut search = BinSearchDownBig::new(BigUint::zero(), BigUint::from_u128(99));
        while let Some(n) = search.probe() {
            search.record(n.to_u128().unwrap() >= goal);
        }
        assert_eq!(search.found().to_u128(), Some(goal));
    }
}

#[test]
fn simple_floats_come_first() {
    let order = |v: f64| float_order(v.to_bits());
    assert_eq!(order(0.0), 0);
    assert_eq!(order(-0.0), 0);
    assert_eq!(order(1.0), 1);
    assert_eq!(order(-3.0), 3);
    assert_eq!(order(9007199254740993.0), 9007199254740992);
    assert_eq!(order(72057594037927928.0), 72057594037927928);
    assert_eq!(order(1.5), (1 << 63) | 1);
    assert_eq!(order(1.25), (1 << 63) | 2);
    assert_eq!(order(1.75), (1 << 63) | 3);
    assert_eq!(order(2.5), (1 << 63) | (1 << 52) | 1);
    assert_eq!(order(0.5), (1 << 63) | (1024 << 52));
    assert_eq!(order(f64::INFINITY), (1 << 63) | (2047 << 52));
    assert!(order(72057594037927936.0) > order(1.5));
    let rising = [0.0, 1.0, 2.0, 1e15, 1.5, 1.25, 2.5, 1e300, 0.5, 0.25, f64::INFINITY];
    assert!(rising.windows(2).all(|w| order(w[0]) < order(w[1])));
    let mut rng = EngineRng::seeded(5);
    for _ in 0..1000 {
        let (a, b) = (rng.next_u64() >> 1, rng.next_u64() >> 1);
        assert!(a == b || float_order(a) != float_order(b));
        assert_eq!(float_order(a), float_order(a | 1 << 63));
    }
}

/// Fails while the sum of the integers is large.
struct Sum(i128);

impl ShrinkProbe for Sum {
    fn run(&mut self, req: ShrinkRun<'_>) -> Result<(bool, Vec<ChoiceNode>, Spans), ShrinkHalt> {
        match req {
            ShrinkRun::Full(nodes) => {
                let sum: i128 = nodes
                    .iter()
                    .map(|n| match n.value() {
                        ChoiceValue::Integer(v) => v.to_i128().unwrap(),
                        _ => 0,
                    })
                    .sum();
                Ok((nodes.len() == 3 && sum >= self.0, nodes.to_vec(), Spans::new()))
            }
            ShrinkRun::Probe { .. } => Ok((false, Vec::new(), Spans::new())),
        }
    }
}

#[test]
fn a_shrink_ends_at_a_simpler_failure() {
    let initial: Vec<ChoiceNode> = [700, 800, 900].map(|v| int_node(v, 0, 1000)).to_vec();
    let mut shrinker = Shrinker::with_probe(Sum(1000), initial, Spans::new());
    shrinker.shrink().unwrap();
    let values: Vec<i128> = shrinker
        .current_nodes
        .iter()
        .map(|n| match n.value() {
            ChoiceValue::Integer(v) => v.to_i128().unwrap(),
            _ => unreachable!(),
        })
        .collect();
    assert_eq!(values, vec![0, 0, 1000]);
    assert!(shrinker.improvements > 0);
    assert_eq!(shrinker.downgraded.len(), shrinker.improvements);
}

#[test]
fn a_deadline_that_has_passed_stops_the_shrink() {
    let initial: Vec<ChoiceNode> = [700, 800, 900].map(|v| int_node(v, 0, 1000)).to_vec();
    let mut shrinker = Shrinker::with_probe(Sum(1000), initial, Spans::new());
    shrinker.deadline = Some(0);
    assert!(shrinker.shrink().is_ok());
    assert!(shrinker.timed_out);
    assert_eq!(shrinker.improvements, 0);
    let mut shrinker = Shrinker::with_probe(Sum(1000), vec![], Spans::new());
    shrinker.deadline = Some(10);
    assert!(!shrinker.past_deadline_at(Some(9)));
    assert!(shrinker.past_deadline_at(Some(11)));
    assert!(shrinker.past_deadline_at(Some(9)));
}

/// Fails as `Sum` does, and keeps what failed.
struct Watched {
    sum: Sum,
    runs: usize,
    failed: Vec<Vec<i128>>,
}

fn integers(nodes: &[ChoiceNode]) -> Vec<i128> {
    nodes
        .iter()
        .map(|n| match n.value() {
            ChoiceValue::Integer(v) => v.to_i128().unwrap(),
            _ => unreachable!(),
        })
        .collect()
}

impl ShrinkProbe for Watched {
    fn run(&mut self, req: ShrinkRun<'_>) -> Result<(bool, Vec<ChoiceNode>, Spans), ShrinkHalt> {
        self.runs += 1;
        let (failed, nodes, spans) = self.sum.run(req)?;
        if failed {
            self.failed.push(integers(&nodes));
        }
        Ok((failed, nodes, spans))
    }
}

fn watched_shrinker(values: [i128; 3]) -> Shrinker<Watched> {
    let initial: Vec<ChoiceNode> = values.map(|v| int_node(v, 0, 1000)).to_vec();
    let probe = Watched { sum: Sum(1000), runs: 0, failed: Vec::new() };
    Shrinker::with_probe(probe, initial, Spans::new())
}

#[test]
fn what_a_shrink_keeps_has_failed() {
    let mut shrinker = watched_shrinker([700, 800, 900]);
    shrinker.shrink().unwrap();
    assert!(shrinker.improvements > 0);
    assert!(shrinker.test_fn.failed.contains(&integers(&shrinker.current_nodes)));
}

#[test]
fn a_single_change_has_no_common_offset() {
    let mut shrinker = watched_shrinker([700, 800, 900]);
    shrinker.all_changed_nodes.insert(1);
    shrinker.lower_common_node_offset().unwrap();
    assert!(shrinker.all_changed_nodes.is_empty());
    assert_eq!(shrinker.test_fn.runs, 0);
    assert_eq!(integers(&shrinker.current_nodes), vec![700, 800, 900]);
    shrinker.all_changed_nodes.insert(0);
    shrinker.all_changed_nodes.insert(1);
    shrinker.lower_common_node_offset().unwrap();
    assert!(shrinker.all_changed_nodes.is_empty());
    assert_eq!(integers(&shrinker.current_nodes), vec![0, 100, 900]);
}

#[test]
fn solitary_values_are_no_duplicates() {
    let mut shrinker = watched_shrinker([700, 800, 900]);
    shrinker.shrink_duplicates().unwrap();
    assert_eq!(shrinker.test_fn.runs, 0);
    assert_eq!(integers(&shrinker.current_nodes), vec![700, 800, 900]);
}

#[test]
fn spans_are_counted_from_either_end() {
    let mut spans = Spans::new();
    for label in 0..3 {
        spans.push(Span { start: 0, end: 1, label, depth: 0, parent: None, discarded: false });
    }
    assert_eq!([0, 2, -1, -3].map(|i| spans.at(i).label), [0, 2, 2, 0]);
}

#[test]
fn without_a_deadline_no_search_times_out() {
    let mut shrinker = watched_shrinker([700, 800, 900]);
    shrinker.shrink().unwrap();
    assert!(!shrinker.timed_out);
    assert_eq!(integers(&shrinker.current_nodes), vec![0, 0, 1000]);
    let runs = shrinker.test_fn.runs;
    shrinker.deadline = Some(0);
    shrinker.shrink().unwrap();
    assert!(shrinker.timed_out);
    assert_eq!(shrinker.test_fn.runs, runs);
    assert_eq!(integers(&shrinker.current_nodes), vec![0, 0, 1000]);
}

/// Writes down what is run, and stops after a number of runs.
struct Listed {
    sum: Sum,
    asked: Vec<Vec<i128>>,
    most: usize,
}

impl ShrinkProbe for Listed {
    fn run(&mut self, req: ShrinkRun<'_>) -> Result<(bool, Vec<ChoiceNode>, Spans), ShrinkHalt> {
        if let ShrinkRun::Full(nodes) = &req {
            self.asked.push(integers(nodes));
        }
        if self.asked.len() > self.most {
            return Err(ShrinkHalt::Stop);
        }
        self.sum.run(req)
    }
}

fn asked_until(most: usize) -> Vec<Vec<i128>> {
    let initial: Vec<ChoiceNode> = [700, 800, 900].map(|v| int_node(v, 0, 1000)).to_vec();
    let probe = Listed { sum: Sum(1000), asked: Vec::new(), most };
    let mut shrinker = Shrinker::with_probe(probe, initial, Spans::new());
    assert!(shrinker.shrink().is_ok());
    shrinker.test_fn.asked
}

#[test]
fn a_search_that_is_cut_short_begins_as_the_whole_one() {
    let whole = asked_until(usize::MAX);
    assert!(whole.len() > 20);
    for most in 0..whole.len() {
        assert_eq!(asked_until(most), whole[..most + 1].to_vec());
    }
}

/// Breaks down.
struct Broken;

impl ShrinkProbe for Broken {
    fn run(&mut self, _req: ShrinkRun<'_>) -> Result<(bool, Vec<ChoiceNode>, Spans), ShrinkHalt> {
        Err(ShrinkHalt::Error(RunError::Backend("gone".to_string())))
    }
}

#[test]
fn an_error_of_the_test_ends_the_shrink() {
    let mut shrinker = Shrinker::with_probe(Broken, vec![int_node(5, 0, 10)], Spans::new());
    assert!(matches!(shrinker.shrink(), Err(RunError::Backend(m)) if m == "gone"));
    shrinker.deadline = Some(0);
    assert!(shrinker.shrink().is_ok());
}

#[test]
fn passes_have_names_and_an_order() {
    let passes = shrink_passes();
    let names: Vec<&str> = passes.iter().map(|p| p.name()).collect();
    assert_eq!(names.len(), 9);
    let mut unique = names.clone();
    unique.sort();
    unique.dedup();
    assert_eq!(unique.len(), 9);
    assert!(passes.contains(&ShrinkPass::ShrinkDuplicates));
}

#[test]
fn errors_say_what_happened() {
    assert_eq!(EngineError::Overrun.to_message(), "test case overrun");
    let e = InternalError::new("it broke");
    assert!(e.to_message().starts_with("it broke"));
    assert!(e.to_message().contains("bug in hegel"));
    assert_eq!(EngineError::InvalidArgument("no".to_string()).to_message(), "no");
}
