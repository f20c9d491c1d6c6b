//! The order in which choice sequences are simpler than one another.
//!
//! Fewer choices come first. Sequences of the same length compare choice by
//! choice: each choice has a key, a short sequence of numbers, and keys
//! compare lexicographically.
use crate::bignum::magnitude_of;
use crate::bignum::BigUint;
use crate::bignum::Comparison;
use crate::choices::boolean_simplest;
use crate::choices::integer_index;
use crate::choices::integer_target;
use crate::choices::nodes_view;
use crate::choices::ChoiceData;
use crate::choices::ChoiceNode;
use crate::choices::IntegerKind;
use crate::choices::KindView;
use crate::choices::NodeView;
use crate::choices::ValueView;
use crate::intervalsets::shrink_position;
use vstd::prelude::*;

verus! {

/// The key of an integer: its distance from the target, above before below.
pub open spec fn integer_key(k: IntegerKind, v: int) -> nat {
    let t = integer_target(k);
    2 * magnitude_of(v - t) + if v < t {
        1nat
    } else {
        0nat
    }
}

/// The key of a choice that is not a cloned stream.
pub open spec fn plain_key(k: KindView, v: ValueView) -> Seq<nat> {
    match (k, v) {
        (KindView::Boolean(k), ValueView::Boolean(b)) => seq![
            if b == boolean_simplest(k) {
                0nat
            } else {
                1nat
            },
        ],
        (KindView::Integer(k), ValueView::Integer(n)) => seq![integer_key(k, n)],
        (KindView::Float(_), ValueView::Float(f)) => seq![f.order as nat],
        (KindView::Bytes(_), ValueView::Bytes(b)) => seq![b.len()] + b.map_values(
            |x: u8| x as nat,
        ),
        (KindView::String(k), ValueView::String(s)) => seq![s.len()] + s.map_values(
            |cp: u32| shrink_position(k.alphabet, cp as int) as nat,
        ),
        _ => Seq::empty(),
    }
}

/// The key of a choice.
pub open spec fn node_key(n: NodeView) -> Seq<nat>
    decreases n,
{
    match n.value {
        ValueView::Stream(nodes, _) => seq![nodes.len()] + flat_keys(nodes),
        _ => plain_key(n.kind, n.value),
    }
}

/// The keys of a sequence of choices, one after the other.
pub open spec fn flat_keys(s: Seq<NodeView>) -> Seq<nat>
    decreases s,
{
    if s.len() == 0 {
        Seq::empty()
    } else {
        flat_keys(s.drop_last()) + node_key(s.last())
    }
}

/// The key of a sequence of choices: how many there are, and their keys.
pub open spec fn sort_key_of(s: Seq<NodeView>) -> Seq<nat> {
    seq![s.len()] + flat_keys(s)
}

/// Lexicographic order.
pub open spec fn key_before(a: Seq<nat>, b: Seq<nat>) -> bool
    decreases a.len(),
{
    if b.len() == 0 {
        false
    } else if a.len() == 0 {
        true
    } else if a[0] != b[0] {
        a[0] < b[0]
    } else {
        key_before(a.skip(1), b.skip(1))
    }
}

/// Whether the first sequence of choices is simpler than the second.
pub open spec fn simpler(a: Seq<NodeView>, b: Seq<NodeView>) -> bool {
    key_before(sort_key_of(a), sort_key_of(b))
}

/// No key comes before itself.
pub proof fn lemma_key_irreflexive(a: Seq<nat>)
    ensures
        !key_before(a, a),
    decreases a.len(),
{
    if a.len() > 0 {
        lemma_key_irreflexive(a.skip(1));
    }
}

/// The order of keys is transitive.
pub proof fn lemma_key_transitive(a: Seq<nat>, b: Seq<nat>, c: Seq<nat>)
    requires
        key_before(a, b),
        key_before(b, c),
    ensures
        key_before(a, c),
    decreases a.len(),
{
    if a.len() > 0 && a[0] == b[0] && b[0] == c[0] {
        lemma_key_transitive(a.skip(1), b.skip(1), c.skip(1));
    }
}

/// Of two different keys one comes before the other.
pub proof fn lemma_key_total(a: Seq<nat>, b: Seq<nat>)
    ensures
        a == b || key_before(a, b) || key_before(b, a),
        !(key_before(a, b) && key_before(b, a)),
    decreases a.len(),
{
    if a.len() == 0 || b.len() == 0 {
        if a.len() == 0 && b.len() == 0 {
            assert(a =~= b);
        }
    } else if a[0] == b[0] {
        lemma_key_total(a.skip(1), b.skip(1));
        if a.skip(1) == b.skip(1) {
            assert(a =~= seq![a[0]] + a.skip(1));
            assert(b =~= seq![b[0]] + b.skip(1));
        }
    }
}

/// A simpler sequence is no longer.
pub proof fn lemma_simpler_is_no_longer(a: Seq<NodeView>, b: Seq<NodeView>)
    ensures
        simpler(a, b) ==> a.len() <= b.len(),
        a.len() < b.len() ==> simpler(a, b),
        sort_key_of(a) == sort_key_of(b) ==> a.len() == b.len(),
{
    assert(sort_key_of(a)[0] == a.len());
    assert(sort_key_of(b)[0] == b.len());
}

/// The dense index of an integer and its key order the integers of a range
/// alike.
pub proof fn lemma_index_agrees_with_key(k: IntegerKind, v: int, w: int)
    requires
        k.min <= v <= k.max,
        k.min <= w <= k.max,
    ensures
        integer_index(k, v) < integer_index(k, w) <==> integer_key(k, v) < integer_key(k, w),
{
}

/// The numbers of a key.
pub open spec fn key_view(k: Seq<BigUint>) -> Seq<nat> {
    k.map_values(|n: BigUint| n@)
}

fn push_number(out: &mut Vec<BigUint>, n: BigUint)
    ensures
        key_view(final(out)@) == key_view(old(out)@).push(n@),
{
    out.push(n);
    assert(key_view(out@) =~= key_view(old(out)@).push(n@));
}

fn push_node_key(out: &mut Vec<BigUint>, n: &ChoiceNode)
    ensures
        key_view(final(out)@) == key_view(old(out)@) + node_key(n@),
    decreases n,
{
    let ghost before = key_view(out@);
    match &n.data {
        ChoiceData::Boolean(k, v) => {
            if *v == k.simplest() {
                push_number(out, BigUint::zero());
            } else {
                push_number(out, BigUint::from_u128(1));
            }
            assert(key_view(out@) =~= before + node_key(n@));
        },
        ChoiceData::Integer(k, v) => {
            let d = v.minus(&k.clamped_shrink_towards());
            let m = d.magnitude();
            let twice = m.plus(&m);
            if d.is_negative() {
                push_number(out, twice.plus(&BigUint::from_u128(1)));
            } else {
                push_number(out, twice);
            }
            assert(key_view(out@) =~= before + node_key(n@));
        },
        ChoiceData::Float(_, v) => {
            push_number(out, BigUint::from_u128(v.order as u128));
            assert(key_view(out@) =~= before + node_key(n@));
        },
        ChoiceData::Bytes(_, v) => {
            push_number(out, BigUint::from_u128(v.len() as u128));
            let mut i: usize = 0;
            let ghost key = node_key(n@);
            assert(key =~= seq![v@.len()] + v@.map_values(|x: u8| x as nat));
            while i < v.len()
                invariant
                    i <= v@.len(),
                    key.len() == v@.len() + 1,
                    forall|j: int| 0 <= j < v@.len() ==> #[trigger] key[j + 1] == v@[j] as nat,
                    key_view(out@) == before + key.take(i + 1),
                decreases v@.len() - i,
            {
                push_number(out, BigUint::from_u128(v[i] as u128));
                proof {
                    assert(key[i + 1] == v@[i as int] as nat);
                    assert(key.take(i + 2) =~= key.take(i + 1).push(key[i + 1]));
                    assert(key_view(out@) =~= before + key.take(i + 2));
                }
                i = i + 1;
            }
            assert(key.take(key.len() as int) =~= key);
        },
        ChoiceData::String(k, v) => {
            push_number(out, BigUint::from_u128(v.len() as u128));
            let mut i: usize = 0;
            let ghost key = node_key(n@);
            assert(key =~= seq![v@.len()] + v@.map_values(
                |cp: u32| shrink_position(k.intervals@, cp as int) as nat,
            ));
            while i < v.len()
                invariant
                    i <= v@.len(),
                    key.len() == v@.len() + 1,
                    forall|j: int|
                        0 <= j < v@.len() ==> #[trigger] key[j + 1] == shrink_position(
                            k.intervals@,
                            v@[j] as int,
                        ) as nat,
                    key_view(out@) == before + key.take(i + 1),
                decreases v@.len() - i,
            {
                let position: usize = k.intervals.position_in_shrink_order(v[i]);
                push_number(out, BigUint::from_u128(position as u128));
                proof {
                    assert(key[i + 1] == position as nat);
                    assert(key.take(i + 2) =~= key.take(i + 1).push(key[i + 1]));
                    assert(key_view(out@) =~= before + key.take(i + 2));
                }
                i = i + 1;
            }
            assert(key.take(key.len() as int) =~= key);
        },
        ChoiceData::Clone(s) => {
            let ghost nodes = n@.value->Stream_0;
            push_number(out, BigUint::from_u128(s.nodes.len() as u128));
            let mut i: usize = 0;
            assert(nodes.take(0) =~= Seq::empty());
            assert(key_view(out@) =~= before + seq![nodes.len()] + flat_keys(nodes.take(0)));
            while i < s.nodes.len()
                invariant
                    i <= s.nodes@.len(),
                    n.data == ChoiceData::Clone(*s),
                    nodes == n@.value->Stream_0,
                    nodes.len() == s.nodes@.len(),
                    forall|j: int| 0 <= j < nodes.len() ==> #[trigger] nodes[j] == s.nodes@[j]@,
                    key_view(out@) == before + seq![nodes.len()] + flat_keys(nodes.take(i as int)),
                decreases s.nodes@.len() - i,
            {
                push_node_key(out, &s.nodes[i]);
                proof {
                    assert(nodes[i as int] == s.nodes@[i as int]@);
                    assert(nodes.take(i + 1).drop_last() =~= nodes.take(i as int));
                    assert(nodes.take(i + 1).last() == nodes[i as int]);
                    assert(key_view(out@) =~= before + seq![nodes.len()] + flat_keys(
                        nodes.take(i + 1),
                    ));
                }
                i = i + 1;
            }
            proof {
                assert(nodes.take(nodes.len() as int) =~= nodes);
                assert(key_view(out@) =~= before + node_key(n@));
            }
        },
    }
}

/// The sort key of a sequence of choices.
pub fn sort_key(nodes: &[ChoiceNode]) -> (r: Vec<BigUint>)
    ensures
        key_view(r@) == sort_key_of(nodes_view(nodes@)),
{
    let ghost views = nodes_view(nodes@);
    let mut out: Vec<BigUint> = Vec::new();
    push_number(&mut out, BigUint::from_u128(nodes.len() as u128));
    let mut i: usize = 0;
    assert(views.take(0) =~= Seq::empty());
    assert(key_view(out@) =~= seq![views.len()] + flat_keys(views.take(0)));
    while i < nodes.len()
        invariant
            i <= nodes@.len(),
            views == nodes_view(nodes@),
            key_view(out@) == seq![views.len()] + flat_keys(views.take(i as int)),
        decreases nodes@.len() - i,
    {
        push_node_key(&mut out, &nodes[i]);
        proof {
            assert(views.take(i + 1).drop_last() =~= views.take(i as int));
            assert(views.take(i + 1).last() == views[i as int]);
            assert(key_view(out@) =~= seq![views.len()] + flat_keys(views.take(i + 1)));
        }
        i = i + 1;
    }
    proof {
        assert(views.take(views.len() as int) =~= views);
    }
    out
}

/// How two keys stand to each other.
pub open spec fn key_comparison(a: Seq<nat>, b: Seq<nat>) -> Comparison {
    if key_before(a, b) {
        Comparison::Less
    } else if a == b {
        Comparison::Equal
    } else {
        Comparison::Greater
    }
}

proof fn lemma_key_prefix(a: Seq<nat>, b: Seq<nat>, i: int)
    requires
        0 <= i <= a.len(),
        i <= b.len(),
        forall|j: int| 0 <= j < i ==> a[j] == b[j],
    ensures
        key_before(a, b) == key_before(a.skip(i), b.skip(i)),
        (a == b) == (a.skip(i) == b.skip(i)),
    decreases i,
{
    if i > 0 {
        lemma_key_prefix(a.skip(1), b.skip(1), i - 1);
        assert(a.skip(1).skip(i - 1) =~= a.skip(i));
        assert(b.skip(1).skip(i - 1) =~= b.skip(i));
        assert(a =~= seq![a[0]] + a.skip(1));
        assert(b =~= seq![b[0]] + b.skip(1));
    } else {
        assert(a.skip(0) =~= a);
        assert(b.skip(0) =~= b);
    }
}

/// How two keys stand to each other.
pub fn compare_keys(a: &Vec<BigUint>, b: &Vec<BigUint>) -> (r: Comparison)
    ensures
        r == key_comparison(key_view(a@), key_view(b@)),
{
    let ghost x = key_view(a@);
    let ghost y = key_view(b@);
    let mut i: usize = 0;
    while i < a.len() && i < b.len()
        invariant
            i <= a@.len(),
            i <= b@.len(),
            x == key_view(a@),
            y == key_view(b@),
            forall|j: int| 0 <= j < i ==> x[j] == y[j],
        decreases a@.len() - i,
    {
        let c = a[i].compare(&b[i]);
        assert(x[i as int] == a@[i as int]@ && y[i as int] == b@[i as int]@);
        if c != Comparison::Equal {
            proof {
                lemma_key_prefix(x, y, i as int);
                assert(x.skip(i as int)[0] == x[i as int]);
                assert(y.skip(i as int)[0] == y[i as int]);
            }
            return c;
        }
        i = i + 1;
    }
    proof {
        lemma_key_prefix(x, y, i as int);
        if i == x.len() && i == y.len() {
            assert(x =~= y);
            lemma_key_irreflexive(x);
        }
    }
    if i < b.len() {
        Comparison::Less
    } else if i < a.len() {
        Comparison::Greater
    } else {
        Comparison::Equal
    }
}

} // verus!
