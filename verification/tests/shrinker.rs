//! The shrinker, and above all its pass over duplicated choices.

use hegel::bignum::BigInt;
use hegel::choices::{
    BooleanChoice, BytesChoice, ChoiceNode, ChoiceValue, FloatChoice, FloatValue, IntegerChoice,
    Probability, StringChoice, PROBABILITY_ONE,
};
use hegel::intervalsets::IntervalSet;
use hegel::shrinker::{ShrinkHalt, ShrinkProbe, ShrinkRun, Shrinker};
use hegel::spans::Spans;

/// A test given as a function.
struct Probe<F>(F);

impl<F: FnMut(ShrinkRun<'_>) -> (bool, Vec<ChoiceNode>, Spans)> ShrinkProbe for Probe<F> {
    fn run(&mut self, req: ShrinkRun<'_>) -> Result<(bool, Vec<ChoiceNode>, Spans), ShrinkHalt> {
        Ok((self.0)(req))
    }
}

fn bool_node(value: bool) -> ChoiceNode {
    ChoiceNode::boolean(BooleanChoice { p: Probability { numerator: PROBABILITY_ONE / 2 } }, value, false)
}

fn float_value(value: f64) -> FloatValue {
    let order = if value == value.trunc() { value.abs() as u64 } else { (1 << 63) | value.to_bits() };
    FloatValue { bits: value.to_bits(), order }
}

fn float_node(value: f64) -> ChoiceNode {
    ChoiceNode::float(
        FloatChoice {
            min_bits: f64::NEG_INFINITY.to_bits(),
            max_bits: f64::INFINITY.to_bits(),
            allow_nan: false,
            allow_infinity: false,
            smallest_magnitude_bits: 5e-324f64.to_bits(),
            simplest: float_value(0.0),
            unit: float_value(1.0),
        },
        float_value(value),
        false,
    )
}

fn bytes_node(value: Vec<u8>) -> ChoiceNode {
    ChoiceNode::bytes(
        BytesChoice {
            min_size: 0,
            max_size: 16,
        },
        value,
        false,
    )
}

fn integer_node(value: i128, min_value: i128, max_value: i128) -> ChoiceNode {
    ChoiceNode::integer(
        IntegerChoice {
            min_value: BigInt::from_i128(min_value),
            max_value: BigInt::from_i128(max_value),
            shrink_towards: BigInt::zero(),
        },
        BigInt::from_i128(value),
        false,
    )
}

fn string_node(value: Vec<u32>) -> ChoiceNode {
    ChoiceNode::string(
        StringChoice {
            intervals: IntervalSet::new(vec![(0, 0x10FFFF)]).unwrap(),
            min_size: 0,
            max_size: 16,
        },
        value,
        false,
    )
}

fn accepting_shrinker(
    initial: Vec<ChoiceNode>,
) -> Shrinker<Probe<impl FnMut(ShrinkRun<'_>) -> (bool, Vec<ChoiceNode>, Spans)>> {
    Shrinker::with_probe(
        Probe(|run: ShrinkRun<'_>| match run {
            ShrinkRun::Full(nodes) => (true, nodes.to_vec(), Spans::new()),
            ShrinkRun::Probe { .. } => (false, Vec::new(), Spans::new()),
        }),
        initial,
        Spans::new(),
    )
}

#[test]
fn shrink_duplicates_collapses_paired_booleans_to_false() {
    let mut shrinker = accepting_shrinker(vec![bool_node(true), bool_node(true)]);
    shrinker.shrink_duplicates().unwrap();
    for n in &shrinker.current_nodes {
        match n.value() {
            ChoiceValue::Boolean(b) => assert!(!b),
            _ => unreachable!(),
        }
    }
}

#[test]
fn shrink_duplicates_collapses_paired_floats_to_zero() {
    let mut shrinker = accepting_shrinker(vec![float_node(3.5), float_node(3.5)]);
    shrinker.shrink_duplicates().unwrap();
    for n in &shrinker.current_nodes {
        match n.value() {
            ChoiceValue::Float(v) => assert_eq!(f64::from_bits(v.bits), 0.0),
            _ => unreachable!(),
        }
    }
}

#[test]
fn shrink_duplicates_collapses_paired_bytes_to_empty() {
    let mut shrinker =
        accepting_shrinker(vec![bytes_node(vec![1, 2, 3]), bytes_node(vec![1, 2, 3])]);
    shrinker.shrink_duplicates().unwrap();
    for n in &shrinker.current_nodes {
        match &n.value() {
            ChoiceValue::Bytes(b) => assert!(b.is_empty()),
            _ => unreachable!(),
        }
    }
}

#[test]
fn shrink_duplicates_collapses_paired_strings_to_empty() {
    let mut shrinker = accepting_shrinker(vec![
        string_node(vec![b'a' as u32, b'b' as u32]),
        string_node(vec![b'a' as u32, b'b' as u32]),
    ]);
    shrinker.shrink_duplicates().unwrap();
    for n in &shrinker.current_nodes {
        match &n.value() {
            ChoiceValue::String(s) => assert!(s.is_empty()),
            _ => unreachable!(),
        }
    }
}

#[test]
fn shrink_duplicates_leaves_solo_nodes_alone() {
    let mut shrinker =
        accepting_shrinker(vec![bool_node(true), float_node(3.0), bytes_node(vec![5])]);
    shrinker.shrink_duplicates().unwrap();
    match shrinker.current_nodes[0].value() {
        ChoiceValue::Boolean(b) => assert!(b),
        _ => unreachable!(),
    }
    match shrinker.current_nodes[1].value() {
        ChoiceValue::Float(v) => assert_eq!(f64::from_bits(v.bits), 3.0),
        _ => unreachable!(),
    }
    match &shrinker.current_nodes[2].value() {
        ChoiceValue::Bytes(b) => assert_eq!(b, &vec![5]),
        _ => unreachable!(),
    }
}

#[test]
fn shrink_duplicates_keeps_distinct_values_separate() {
    let mut shrinker = accepting_shrinker(vec![bool_node(true), bool_node(false), bool_node(true)]);
    shrinker.shrink_duplicates().unwrap();
    for n in &shrinker.current_nodes {
        match n.value() {
            ChoiceValue::Boolean(b) => assert!(!b),
            _ => unreachable!(),
        }
    }
}

/// Fails while all integers are the same and at least `threshold`.
fn group_accepts_uniform_at_least(
    initial: Vec<ChoiceNode>,
    threshold: i128,
) -> Shrinker<Probe<impl FnMut(ShrinkRun<'_>) -> (bool, Vec<ChoiceNode>, Spans)>> {
    Shrinker::with_probe(
        Probe(move |run: ShrinkRun<'_>| match run {
            ShrinkRun::Full(nodes) => {
                let int_vals: Vec<i128> = nodes
                    .iter()
                    .filter_map(|n| match &n.value() {
                        ChoiceValue::Integer(v) => Some(v.to_i128().unwrap()),
                        _ => None,
                    })
                    .collect();
                let interesting = int_vals.len() >= 2
                    && int_vals.iter().all(|v| *v == int_vals[0])
                    && int_vals[0] >= threshold;
                (interesting, nodes.to_vec(), Spans::new())
            }
            ShrinkRun::Probe { .. } => (false, Vec::new(), Spans::new()),
        }),
        initial,
        Spans::new(),
    )
}

#[test]
fn shrink_duplicates_positive_descent_is_log_log() {
    let initial: Vec<ChoiceNode> = (0..5)
        .map(|_| integer_node(1_000_000_000_000_000, 0, i128::MAX))
        .collect();
    let mut shrinker = group_accepts_uniform_at_least(initial, 100);
    shrinker.shrink_duplicates().unwrap();

    for n in &shrinker.current_nodes {
        match &n.value() {
            ChoiceValue::Integer(v) => assert_eq!(v.to_i128().unwrap(), 100),
            _ => unreachable!(),
        }
    }
    assert!(
        shrinker.improvements < 30,
        "shrink_duplicates positive descent should be log-log; saw {} improvements",
        shrinker.improvements
    );
}

#[test]
fn shrink_duplicates_negative_descent_is_log_log() {
    let initial: Vec<ChoiceNode> = (0..5)
        .map(|_| integer_node(-1_000_000_000_000_000, i128::MIN + 1, 0))
        .collect();
    let mut shrinker = Shrinker::with_probe(
        Probe(move |run: ShrinkRun<'_>| match run {
            ShrinkRun::Full(nodes) => {
                let int_vals: Vec<i128> = nodes
                    .iter()
                    .filter_map(|n| match &n.value() {
                        ChoiceValue::Integer(v) => Some(v.to_i128().unwrap()),
                        _ => None,
                    })
                    .collect();
                let interesting = int_vals.len() >= 2
                    && int_vals.iter().all(|v| *v == int_vals[0])
                    && int_vals[0] <= -100;
                (interesting, nodes.to_vec(), Spans::new())
            }
            ShrinkRun::Probe { .. } => (false, Vec::new(), Spans::new()),
        }),
        initial,
        Spans::new(),
    );
    shrinker.shrink_duplicates().unwrap();

    for n in &shrinker.current_nodes {
        match &n.value() {
            ChoiceValue::Integer(v) => assert_eq!(v.to_i128().unwrap(), -100),
            _ => unreachable!(),
        }
    }
    assert!(
        shrinker.improvements < 30,
        "shrink_duplicates negative descent should be log-log; saw {} improvements",
        shrinker.improvements
    );
}

/// Once one group has shrunk, the other is gone.
#[test]
fn shrink_duplicates_skips_group_invalidated_by_concurrent_shrink() {
    let initial = vec![
        integer_node(7, 0, i128::MAX),
        integer_node(7, 0, i128::MAX),
        integer_node(8, 0, i128::MAX),
        integer_node(8, 0, i128::MAX),
    ];
    let mut shrinker = Shrinker::with_probe(
        Probe(|run: ShrinkRun<'_>| match run {
            ShrinkRun::Full(_) => (true, vec![integer_node(0, 0, i128::MAX)], Spans::new()),
            ShrinkRun::Probe { .. } => (false, Vec::new(), Spans::new()),
        }),
        initial,
        Spans::new(),
    );
    shrinker.shrink_duplicates().unwrap();
}

/// The first success leaves a single choice, and nothing to replace together.
#[test]
fn shrink_duplicates_group_replace_short_circuits_when_truncated() {
    let initial: Vec<ChoiceNode> = (0..5)
        .map(|_| integer_node(1_000_000_000_000_000, 0, i128::MAX))
        .collect();
    let mut shrinker = Shrinker::with_probe(
        Probe(|run: ShrinkRun<'_>| match run {
            ShrinkRun::Full(nodes) => {
                let n = match &nodes[0].value() {
                    ChoiceValue::Integer(v) => v.to_i128().unwrap(),
                    _ => 0,
                };
                if n <= 0 {
                    return (false, nodes.to_vec(), Spans::new());
                }
                (true, vec![nodes[0].clone()], Spans::new())
            }
            ShrinkRun::Probe { .. } => (false, Vec::new(), Spans::new()),
        }),
        initial,
        Spans::new(),
    );
    shrinker.shrink_duplicates().unwrap();
}

/// The first group shrinks until the second is cut off.
#[test]
fn shrink_duplicates_outer_skips_group_truncated_by_prior_group() {
    let initial = vec![
        integer_node(9, 0, i128::MAX),
        integer_node(9, 0, i128::MAX),
        integer_node(5, 0, i128::MAX),
        integer_node(5, 0, i128::MAX),
    ];
    let mut shrinker = Shrinker::with_probe(
        Probe(|run: ShrinkRun<'_>| match run {
            ShrinkRun::Full(nodes) => {
                let head = match &nodes[0].value() {
                    ChoiceValue::Integer(v) => v.to_i128().unwrap(),
                    _ => 0,
                };
                if nodes.len() == 4 {
                    if head > 7 {
                        return (true, nodes.to_vec(), Spans::new());
                    }
                    if head > 0 {
                        return (true, vec![nodes[0].clone()], Spans::new());
                    }
                    return (false, nodes.to_vec(), Spans::new());
                }
                (true, nodes.to_vec(), Spans::new())
            }
            ShrinkRun::Probe { .. } => (false, Vec::new(), Spans::new()),
        }),
        initial,
        Spans::new(),
    );
    shrinker.shrink_duplicates().unwrap();
    assert_eq!(shrinker.current_nodes.len(), 1);
}

/// A square matrix drawn as `rows`, `columns` and `rows × columns` entries,
/// interesting when it is not symmetric. Its two dimensions are a duplicated
/// size parameter: zeroing the entries first leaves an all-zero matrix with a
/// single `1` in its last row, from which no smaller square stays
/// asymmetric, so the full shrink has to lower the dimensions while the
/// entries still vary to reach the two-by-two minimum.
#[test]
fn shrink_lowers_a_duplicated_size_before_zeroing_what_it_governs() {
    let entries: [i128; 25] = [
        187, 9999, 187, 905, 9999, 6955, 308, 494, 1982, 6883, 128, 9999, 101, 86, 1180, 1061,
        10000, 7, 488, 239, 206, 385, 9999, 9499, 488,
    ];
    let mut initial = vec![integer_node(5, 1, 10), integer_node(5, 1, 10)];
    initial.extend(entries.iter().map(|&v| integer_node(v, 0, 10000)));
    let mut shrinker = Shrinker::with_probe(
        Probe(|run: ShrinkRun<'_>| match run {
            ShrinkRun::Full(nodes) => {
                let dim = |node: &ChoiceNode| match node.value() {
                    ChoiceValue::Integer(v) => usize::try_from(v.to_i128().unwrap()).unwrap(),
                    _ => unreachable!(),
                };
                if nodes.len() < 2 {
                    return (false, nodes.to_vec(), Spans::new());
                }
                let (rows, columns) = (dim(&nodes[0]), dim(&nodes[1]));
                let used = 2 + rows * columns;
                if nodes.len() < used {
                    return (false, nodes.to_vec(), Spans::new());
                }
                let entry = |i: usize, j: usize| nodes[2 + i * columns + j].value();
                let asymmetric = rows == columns
                    && (0..rows).any(|i| (i + 1..rows).any(|j| entry(i, j) != entry(j, i)));
                (asymmetric, nodes[..used].to_vec(), Spans::new())
            }
            ShrinkRun::Probe { .. } => (false, Vec::new(), Spans::new()),
        }),
        initial,
        Spans::new(),
    );
    shrinker.shrink().unwrap();
    let values: Vec<ChoiceValue> = shrinker.current_nodes.iter().map(|n| n.value()).collect();
    assert_eq!(
        values,
        [2, 2, 0, 0, 1, 0].map(|v| ChoiceValue::Integer(BigInt::from_i128(v)))
    );
}
