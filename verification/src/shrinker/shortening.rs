//! The shrink pass that makes choices less simple, for the sake of a shorter
//! path through the test.
use super::extends;
use super::index_passes::index_at;
use super::index_passes::is_sequence;
use super::index_passes::lemma_offered_moves;
use super::index_passes::push_new;
use super::index_passes::with_value_at;
use super::index_passes::zero_from;
use super::index_passes::zeroed_from;
use super::offered;
use super::Offer;
use super::Run;
use super::RunView;
use super::ShrinkHalt;
use super::ShrinkProbe;
use super::ShrinkRun;
use super::Shrinker;
use crate::bignum::BigInt;
use crate::bignum::BigUint;
use crate::choices::copy_nodes;
use crate::choices::lemma_index_round_trip;
use crate::choices::max_index_of;
use crate::choices::nodes_view;
use crate::choices::value_at;
use crate::choices::value_fits;
use crate::choices::values_view;
use crate::choices::ChoiceData;
use crate::choices::ChoiceNode;
use crate::choices::ChoiceValue;
use crate::choices::KindView;
use crate::choices::NodeView;
use crate::choices::ValueView;
use crate::order::sort_key_of;
use vstd::arithmetic::power2::lemma2_to64;
use vstd::arithmetic::power2::lemma_pow2_unfold;
use vstd::arithmetic::power2::pow2;
use vstd::prelude::*;

verus! {

/// The steps by which an index is raised.
pub open spec fn is_index_step(d: nat) -> bool {
    d == 1 || d == 2 || d == 4 || d == 8 || d == 16
}

/// Whether `v` is another value of a choice whose index is `c` raised by a
/// step, or the largest.
pub open spec fn is_index_increment(n: NodeView, c: nat, v: ValueView) -> bool {
    v != n.value && ((exists|d: nat| #[trigger]
        is_index_step(d) && value_at(n.kind, c + d) == Some(v)) || (max_index_of(
        n.kind,
    ) matches Some(m) && value_at(n.kind, m) == Some(v)))
}

/// Whether `s` is two to the power `e`, or its negation.
pub open spec fn is_signed_power(e: nat, s: int) -> bool {
    s == pow2(e) || s == -(pow2(e) as int)
}

/// Whether `v` is another value of an integer choice that is a small power of
/// two or its negation.
pub open spec fn is_power_increment(n: NodeView, v: ValueView) -> bool {
    match (n.kind, v) {
        (KindView::Integer(k), ValueView::Integer(x)) => v != n.value && k.min <= x <= k.max
            && exists|e: nat| e < 11 && #[trigger] is_signed_power(e, x),
        _ => false,
    }
}

/// Whether `v` at `i` was offered, with all that follows made simplest.
pub open spec fn increment_offered(
    h: Seq<Offer>,
    from: nat,
    t: Seq<NodeView>,
    i: usize,
    v: ValueView,
) -> bool {
    offered(h, from, t, zeroed_from(with_value_at(t, i as int, v), i + 1))
}

/// The choices without the `d` that follow the one at `i`.
pub open spec fn less_after(t: Seq<NodeView>, i: int, d: int) -> Seq<NodeView> {
    t.take(i + 1) + t.skip(i + 1 + d)
}

/// Whether the choices were offered whole, and without the one or the two that
/// follow the one at `i`, in this order up to one that is as simple as the
/// target.
pub open spec fn later_offered(
    h: Seq<Offer>,
    from: nat,
    t: Seq<NodeView>,
    attempt: Seq<NodeView>,
    i: int,
) -> bool {
    forall|d: int|
        #![trigger less_after(attempt, i, d)]
        0 <= d <= 2 && d <= attempt.len() - i - 1 ==> offered(
            h,
            from,
            t,
            less_after(attempt, i, d),
        ) || exists|e: int|
            0 <= e < d && sort_key_of(#[trigger] less_after(attempt, i, e)) == sort_key_of(t)
}

/// Whether the test was run once more with `v` at `i` and all that follows
/// made simplest, and, where it then made fewer choices than the target has,
/// what follows was offered as it is. Nothing of this happens where `v` leaves
/// the choices as simple as the target.
pub open spec fn increment_followed(
    h: Seq<Offer>,
    from: nat,
    runs: Seq<Run>,
    t: Seq<NodeView>,
    i: usize,
    v: ValueView,
) -> bool {
    let attempt = with_value_at(t, i as int, v);
    let zeroed = zeroed_from(attempt, i + 1);
    sort_key_of(zeroed) == sort_key_of(t) || exists|u: int|
        0 <= u < runs.len() && (#[trigger] runs[u]).request == RunView::Full(zeroed)
            && !runs[u].considered && runs[u].answer is Some && (
        runs[u].answer->Some_0.nodes.len() < t.len() ==> later_offered(
            h,
            from,
            t,
            attempt,
            i as int,
        ))
}

/// Whether all increments of the choice at `i` were offered, and those of its
/// index followed up. Choices that were forced, and those without an index,
/// have none.
pub open spec fn increments_offered(
    h: Seq<Offer>,
    from: nat,
    runs: Seq<Run>,
    t: Seq<NodeView>,
    i: usize,
) -> bool {
    index_at(t, i as int) matches Some(c) ==> !t[i as int].was_forced ==> {
        &&& forall|v: ValueView|
            is_index_increment(t[i as int], c, v) || is_power_increment(t[i as int], v)
                ==> #[trigger] increment_offered(h, from, t, i, v)
        &&& forall|v: ValueView|
            is_index_increment(t[i as int], c, v) ==> #[trigger] increment_followed(
                h,
                from,
                runs,
                t,
                i,
                v,
            )
    }
}

/// Whether all increments of all choices were offered.
pub open spec fn all_increments_offered(
    h: Seq<Offer>,
    from: nat,
    runs: Seq<Run>,
    t: Seq<NodeView>,
) -> bool {
    forall|i: usize| #[trigger] increments_offered(h, from, runs, t, i)
}

proof fn lemma_later_stays(
    h1: Seq<Offer>,
    h2: Seq<Offer>,
    from1: nat,
    from2: nat,
    t: Seq<NodeView>,
    attempt: Seq<NodeView>,
    i: int,
)
    requires
        extends(h1, h2),
        from2 <= from1,
        later_offered(h1, from1, t, attempt, i),
    ensures
        later_offered(h2, from2, t, attempt, i),
{
    assert forall|d: int|
        #![trigger less_after(attempt, i, d)]
        0 <= d <= 2 && d <= attempt.len() - i - 1 implies offered(
        h2,
        from2,
        t,
        less_after(attempt, i, d),
    ) || exists|e: int|
        0 <= e < d && sort_key_of(#[trigger] less_after(attempt, i, e)) == sort_key_of(t) by {
        if offered(h1, from1, t, less_after(attempt, i, d)) {
            lemma_offered_moves(h1, h2, from1, from2, t, less_after(attempt, i, d));
        }
    }
}

proof fn lemma_followed_stays(
    h1: Seq<Offer>,
    h2: Seq<Offer>,
    from1: nat,
    from2: nat,
    runs1: Seq<Run>,
    runs2: Seq<Run>,
    t: Seq<NodeView>,
    i: usize,
    v: ValueView,
)
    requires
        extends(h1, h2),
        extends(runs1, runs2),
        from2 <= from1,
        increment_followed(h1, from1, runs1, t, i, v),
    ensures
        increment_followed(h2, from2, runs2, t, i, v),
{
    let attempt = with_value_at(t, i as int, v);
    let zeroed = zeroed_from(attempt, i + 1);
    if sort_key_of(zeroed) != sort_key_of(t) {
        let u = choose|u: int|
            0 <= u < runs1.len() && (#[trigger] runs1[u]).request == RunView::Full(zeroed)
                && !runs1[u].considered && runs1[u].answer is Some && (
            runs1[u].answer->Some_0.nodes.len() < t.len() ==> later_offered(
                h1,
                from1,
                t,
                attempt,
                i as int,
            ));
        assert(runs2[u] == runs1[u]);
        if runs1[u].answer->Some_0.nodes.len() < t.len() {
            lemma_later_stays(h1, h2, from1, from2, t, attempt, i as int);
        }
    }
}

pub(crate) proof fn lemma_all_increments_stay(
    h1: Seq<Offer>,
    h2: Seq<Offer>,
    from1: nat,
    from2: nat,
    runs1: Seq<Run>,
    runs2: Seq<Run>,
    t: Seq<NodeView>,
)
    requires
        extends(h1, h2),
        extends(runs1, runs2),
        from2 <= from1,
        all_increments_offered(h1, from1, runs1, t),
    ensures
        all_increments_offered(h2, from2, runs2, t),
{
    assert forall|i: usize| #[trigger] increments_offered(h2, from2, runs2, t, i) by {
        assert(increments_offered(h1, from1, runs1, t, i));
        lemma_increments_stay(h1, h2, from1, from2, runs1, runs2, t, i);
    }
}

proof fn lemma_increments_stay(
    h1: Seq<Offer>,
    h2: Seq<Offer>,
    from1: nat,
    from2: nat,
    runs1: Seq<Run>,
    runs2: Seq<Run>,
    t: Seq<NodeView>,
    i: usize,
)
    requires
        extends(h1, h2),
        extends(runs1, runs2),
        from2 <= from1,
        increments_offered(h1, from1, runs1, t, i),
    ensures
        increments_offered(h2, from2, runs2, t, i),
{
    if let Some(c) = index_at(t, i as int) {
        if !t[i as int].was_forced {
            assert forall|v: ValueView|
                is_index_increment(t[i as int], c, v) || is_power_increment(
                    t[i as int],
                    v,
                ) implies #[trigger] increment_offered(h2, from2, t, i, v) by {
                assert(increment_offered(h1, from1, t, i, v));
                lemma_offered_moves(
                    h1,
                    h2,
                    from1,
                    from2,
                    t,
                    zeroed_from(with_value_at(t, i as int, v), i + 1),
                );
            }
            assert forall|v: ValueView|
                is_index_increment(t[i as int], c, v) implies #[trigger] increment_followed(
                h2,
                from2,
                runs2,
                t,
                i,
                v,
            ) by {
                assert(increment_followed(h1, from1, runs1, t, i, v));
                lemma_followed_stays(h1, h2, from1, from2, runs1, runs2, t, i, v);
            }
        }
    }
}

/// `a` has at least the values of `b`.
spec fn covers(a: Seq<ValueView>, b: Seq<ValueView>) -> bool {
    forall|v: ValueView| #[trigger] b.contains(v) ==> a.contains(v)
}

proof fn lemma_extended_covers(a: Seq<ValueView>, b: Seq<ValueView>)
    requires
        extends(b, a),
    ensures
        covers(a, b),
{
    assert forall|v: ValueView| #[trigger] b.contains(v) implies a.contains(v) by {
        let x = choose|x: int| 0 <= x < b.len() && b[x] == v;
        assert(a[x] == v);
    }
}

/// The values with another one, where there is one that is neither among them
/// nor the value that a choice has.
pub open spec fn pushed(s: Seq<ValueView>, v: Option<ValueView>, own: ValueView) -> Seq<ValueView> {
    match v {
        Some(x) => if x != own && !s.contains(x) {
            s.push(x)
        } else {
            s
        },
        None => s,
    }
}

/// The values that a choice with index `c` is raised to by its index, in this
/// order.
pub open spec fn index_values(n: NodeView, c: nat) -> Seq<ValueView> {
    let v1 = pushed(Seq::empty(), value_at(n.kind, c + 1), n.value);
    let v2 = pushed(v1, value_at(n.kind, c + 2), n.value);
    let v3 = pushed(v2, value_at(n.kind, c + 4), n.value);
    let v4 = pushed(v3, value_at(n.kind, c + 8), n.value);
    let v5 = pushed(v4, value_at(n.kind, c + 16), n.value);
    match max_index_of(n.kind) {
        Some(m) => pushed(v5, value_at(n.kind, m), n.value),
        None => v5,
    }
}

/// An integer, where a choice may have it.
pub open spec fn fitting(n: NodeView, x: int) -> Option<ValueView> {
    if n.kind matches KindView::Integer(k) && k.min <= x <= k.max {
        Some(ValueView::Integer(x))
    } else {
        None
    }
}

/// The values with the first `e` powers of two and their negations, where a
/// choice may have them.
pub open spec fn with_powers(s: Seq<ValueView>, n: NodeView, e: nat) -> Seq<ValueView>
    decreases e,
{
    if e == 0 {
        s
    } else {
        let before = with_powers(s, n, (e - 1) as nat);
        let power = pow2((e - 1) as nat) as int;
        pushed(pushed(before, fitting(n, power), n.value), fitting(n, -power), n.value)
    }
}

/// A choice that is no integer gets no powers.
proof fn lemma_no_powers(s: Seq<ValueView>, n: NodeView, e: nat)
    requires
        !(n.kind is Integer),
    ensures
        with_powers(s, n, e) == s,
    decreases e,
{
    if e > 0 {
        lemma_no_powers(s, n, (e - 1) as nat);
    }
}

fn push_at_index(out: &mut Vec<ChoiceValue>, node: &ChoiceNode, k: &BigUint)
    requires
        forall|v: ValueView| #[trigger]
            values_view(old(out)@).contains(v) ==> value_fits(node@.kind, v),
    ensures
        values_view(final(out)@) == pushed(
            values_view(old(out)@),
            value_at(node@.kind, k@),
            node@.value,
        ),
        forall|v: ValueView| #[trigger]
            values_view(final(out)@).contains(v) ==> value_fits(node@.kind, v),
        extends(values_view(old(out)@), values_view(final(out)@)),
        value_at(node@.kind, k@) matches Some(v) ==> v != node@.value ==> values_view(
            final(out)@,
        ).contains(v),
{
    proof {
        lemma_index_round_trip(node@.kind, node@.value, k@);
    }
    if let Some(v) = node.data.from_index(k) {
        if !v.same(&node.value()) {
            push_new(out, v);
        }
    }
}

/// The increments that come from the index of a choice.
fn index_increments(node: &ChoiceNode, c: &BigUint) -> (r: Vec<ChoiceValue>)
    ensures
        values_view(r@) == index_values(node@, c@),
        forall|v: ValueView| #[trigger]
            values_view(r@).contains(v) ==> value_fits(node@.kind, v),
        forall|v: ValueView| #[trigger]
            is_index_increment(node@, c@, v) ==> values_view(r@).contains(v),
{
    let mut out: Vec<ChoiceValue> = Vec::new();
    assert(values_view(out@) =~= Seq::empty());
    push_at_index(&mut out, node, &c.plus(&BigUint::from_u128(1)));
    let ghost o1 = values_view(out@);
    push_at_index(&mut out, node, &c.plus(&BigUint::from_u128(2)));
    let ghost o2 = values_view(out@);
    push_at_index(&mut out, node, &c.plus(&BigUint::from_u128(4)));
    let ghost o3 = values_view(out@);
    push_at_index(&mut out, node, &c.plus(&BigUint::from_u128(8)));
    let ghost o4 = values_view(out@);
    push_at_index(&mut out, node, &c.plus(&BigUint::from_u128(16)));
    let ghost o5 = values_view(out@);
    if let Some(m) = node.data.max_index() {
        push_at_index(&mut out, node, &m);
    }
    proof {
        lemma_extended_covers(o2, o1);
        lemma_extended_covers(o3, o2);
        lemma_extended_covers(o4, o3);
        lemma_extended_covers(o5, o4);
        lemma_extended_covers(values_view(out@), o5);
    }
    out
}

/// Adds the powers of two and their negations that an integer choice admits.
fn push_powers(out: &mut Vec<ChoiceValue>, node: &ChoiceNode)
    requires
        forall|v: ValueView| #[trigger]
            values_view(old(out)@).contains(v) ==> value_fits(node@.kind, v),
    ensures
        values_view(final(out)@) == with_powers(values_view(old(out)@), node@, 11),
        forall|v: ValueView| #[trigger]
            values_view(final(out)@).contains(v) ==> value_fits(node@.kind, v),
        extends(values_view(old(out)@), values_view(final(out)@)),
        forall|v: ValueView| #[trigger]
            is_power_increment(node@, v) ==> values_view(final(out)@).contains(v),
{
    let ghost before = values_view(out@);
    proof {
        if !(node@.kind is Integer) {
            lemma_no_powers(before, node@, 11);
        }
    }
    if let ChoiceData::Integer(kind, current) = &node.data {
        let mut power = BigInt::from_u64(1);
        let mut e: u32 = 0;
        proof {
            lemma2_to64();
        }
        while e < 11
            invariant
                values_view(out@) == with_powers(before, node@, e as nat),
                node.data == ChoiceData::Integer(*kind, *current),
                e <= 11,
                power@ == pow2(e as nat),
                extends(before, values_view(out@)),
                forall|v: ValueView| #[trigger]
                    values_view(out@).contains(v) ==> value_fits(node@.kind, v),
                forall|x: nat, s: int| #[trigger]
                    is_signed_power(x, s) && x < e && ValueView::Integer(s) != node@.value
                        && kind@.min <= s <= kind@.max ==> values_view(out@).contains(
                        ValueView::Integer(s),
                    ),
            decreases 11 - e,
        {
            let ghost o0 = values_view(out@);
            if kind.validate(&power) && power != *current {
                push_new(out, ChoiceValue::Integer(power.clone()));
            }
            let ghost o1 = values_view(out@);
            let negative = power.negated();
            if kind.validate(&negative) && negative != *current {
                push_new(out, ChoiceValue::Integer(negative));
            }
            proof {
                lemma_extended_covers(o1, o0);
                lemma_extended_covers(values_view(out@), o1);
                lemma_pow2_unfold((e + 1) as nat);
                assert forall|x: nat, s: int| #[trigger]
                    is_signed_power(x, s) && x < e + 1 && ValueView::Integer(s) != node@.value
                        && kind@.min <= s <= kind@.max implies values_view(out@).contains(
                    ValueView::Integer(s),
                ) by {
                    if x < e {
                        assert(o0.contains(ValueView::Integer(s)));
                        assert(o1.contains(ValueView::Integer(s)));
                    } else if s == pow2(x) {
                        assert(o1.contains(ValueView::Integer(s)));
                    }
                }
            }
            power = power.plus(&power);
            e = e + 1;
        }
        proof {
            assert forall|v: ValueView| #[trigger]
                is_power_increment(node@, v) implies values_view(out@).contains(v) by {
                let s = v->Integer_0;
                let x = choose|x: nat| x < 11 && #[trigger] is_signed_power(x, s);
                assert(is_signed_power(x, s));
            }
        }
    }
}

impl<P: ShrinkProbe> Shrinker<P> {
    /// Whether the choices were considered without the `d` that follow the one
    /// at `i`, then without one more and so on up to two, until one was taken.
    pub open spec fn shortened(
        a: Self,
        b: Self,
        attempt: Seq<NodeView>,
        i: int,
        d: int,
    ) -> bool
        decreases 3 - d,
    {
        if d > 2 || d > attempt.len() - i - 1 {
            b == a
        } else {
            b.considered(a, less_after(attempt, i, d), Ok(true)) || exists|mid: Self| #[trigger]
                mid.considered(a, less_after(attempt, i, d), Ok(false)) && Self::shortened(
                    mid,
                    b,
                    attempt,
                    i,
                    d + 1,
                )
        }
    }

    /// Whether the test was run on a candidate only to look at what comes of it.
    pub open spec fn looked_at(a: Self, b: Self, candidate: Seq<NodeView>) -> bool {
        let run = b.runs@.last();
        &&& b == (Shrinker {
            test_fn: b.test_fn,
            timed_out: b.timed_out,
            runs: b.runs,
            readings: b.readings,
            ..a
        })
        &&& b.timed(a)
        &&& !b.timed_out
        &&& b.runs@ == a.runs@.push(run)
        &&& run.request == RunView::Full(candidate)
        &&& !run.considered
        &&& run.answer is Some
        &&& run.halt is None
        &&& Self::probed(a.test_fn, b.test_fn, run)
    }

    /// Whether the test was run on `zeroed` once more, and what follows was
    /// offered as it is where it then made fewer choices than the target has.
    pub open spec fn followed_up(
        a: Self,
        b: Self,
        attempt: Seq<NodeView>,
        zeroed: Seq<NodeView>,
        i: int,
    ) -> bool {
        exists|mid: Self| #[trigger]
            Self::looked_at(a, mid, zeroed) && if mid.runs@.last().answer->Some_0.nodes.len()
                >= mid.target().len() {
                b == mid
            } else {
                Self::shortened(mid, b, attempt, i, 0)
            }
    }

    /// Whether `zeroed` was considered, and followed up where it was refused and
    /// that is asked for.
    pub open spec fn incremented_by(
        a: Self,
        b: Self,
        attempt: Seq<NodeView>,
        zeroed: Seq<NodeView>,
        i: int,
        by_index: bool,
    ) -> bool {
        b.considered(a, zeroed, Ok(true)) || exists|mid: Self| #[trigger]
            mid.considered(a, zeroed, Ok(false)) && if by_index {
                Self::followed_up(mid, b, attempt, zeroed, i)
            } else {
                b == mid
            }
    }

    /// Whether `v` was tried at `i` with all that follows made simplest, and
    /// followed up where it came from the index.
    pub open spec fn incremented(
        a: Self,
        b: Self,
        i: usize,
        v: ValueView,
        by_index: bool,
    ) -> bool {
        let t = a.target();
        if i < t.len() && value_fits(t[i as int].kind, v) {
            Self::incremented_by(
                a,
                b,
                with_value_at(t, i as int, v),
                zeroed_from(with_value_at(t, i as int, v), i + 1),
                i as int,
                by_index,
            )
        } else {
            b == a
        }
    }

    /// How the values of a list are tried at `i`, the first `n` of which come
    /// from the index.
    pub open spec fn increment_step(i: usize, values: Seq<ValueView>, n: int) -> spec_fn(
        Self,
        Self,
        int,
    ) -> bool {
        |a: Self, b: Self, t: int| Self::incremented(a, b, i, values[t], t < n)
    }

    /// Whether all values of a list were tried at `i`.
    pub open spec fn incremented_through(
        a: Self,
        b: Self,
        i: usize,
        values: Seq<ValueView>,
        n: int,
    ) -> bool {
        Self::walked(a, b, values.len() as int, Self::increment_step(i, values, n))
    }

    /// Whether all increments of the choice at `i` were tried. Choices that were
    /// forced, and those without an index, have none.
    pub open spec fn increments_made(a: Self, b: Self, i: usize) -> bool {
        let node = a.target()[i as int];
        match index_at(a.target(), i as int) {
            Some(c) => if node.was_forced {
                b == a
            } else {
                Self::incremented_through(
                    a,
                    b,
                    i,
                    with_powers(index_values(node, c), node, 11),
                    index_values(node, c).len() as int,
                )
            },
            None => b == a,
        }
    }

    /// How a pass raises the choices one by one.
    pub open spec fn increments_step() -> spec_fn(Self, Self, int) -> bool {
        |a: Self, b: Self, t: int|
            t < a.target().len() && Self::increments_made(a, b, t as usize)
    }

    /// Whether the choices were considered without the `d` that follow the one at `i`
    /// and so on, until one ended that as `halt` says.
    pub open spec fn shortening_cut(
        a: Self,
        b: Self,
        attempt: Seq<NodeView>,
        i: int,
        d: int,
        halt: ShrinkHalt,
    ) -> bool
        decreases 3 - d,
    {
        if d > 2 || d > attempt.len() - i - 1 {
            false
        } else {
            b.considered(a, less_after(attempt, i, d), Err(halt)) || exists|mid: Self| #[trigger]
                mid.considered(a, less_after(attempt, i, d), Ok(false)) && Self::shortening_cut(
                    mid,
                    b,
                    attempt,
                    i,
                    d + 1,
                    halt,
                )
        }
    }

    /// Whether the test was run on `zeroed` once more and what follows was offered,
    /// until one of them ended that as `halt` says.
    pub open spec fn follow_up_cut(
        a: Self,
        b: Self,
        attempt: Seq<NodeView>,
        zeroed: Seq<NodeView>,
        i: int,
        halt: ShrinkHalt,
    ) -> bool {
        b.executed(a, RunView::Full(zeroed), false, Err(halt)) || exists|mid: Self| #[trigger]
            Self::looked_at(a, mid, zeroed) && mid.runs@.last().answer->Some_0.nodes.len()
                < mid.target().len() && Self::shortening_cut(mid, b, attempt, i, 0, halt)
    }

    /// Whether `zeroed` was considered and followed up until that ended as `halt`
    /// says.
    pub open spec fn increment_by_cut(
        a: Self,
        b: Self,
        attempt: Seq<NodeView>,
        zeroed: Seq<NodeView>,
        i: int,
        by_index: bool,
        halt: ShrinkHalt,
    ) -> bool {
        b.considered(a, zeroed, Err(halt)) || by_index && exists|mid: Self| #[trigger]
            mid.considered(a, zeroed, Ok(false)) && Self::follow_up_cut(
                mid,
                b,
                attempt,
                zeroed,
                i,
                halt,
            )
    }

    /// Whether `v` was tried at `i` with all that follows made simplest until that
    /// ended as `halt` says, or the candidate could not be made.
    pub open spec fn increment_cut(
        a: Self,
        b: Self,
        i: usize,
        v: ValueView,
        by_index: bool,
        halt: ShrinkHalt,
    ) -> bool {
        let t = a.target();
        i < t.len() && value_fits(t[i as int].kind, v) && (b == a && Self::halted_in(a, b, halt)
            || Self::increment_by_cut(
            a,
            b,
            with_value_at(t, i as int, v),
            zeroed_from(with_value_at(t, i as int, v), i + 1),
            i as int,
            by_index,
            halt,
        ))
    }

    /// How trying the values of a list at `i` ends at one of them.
    pub open spec fn increment_part(
        i: usize,
        values: Seq<ValueView>,
        n: int,
        halt: ShrinkHalt,
    ) -> spec_fn(Self, Self, int) -> bool {
        |a: Self, b: Self, t: int| Self::increment_cut(a, b, i, values[t], t < n, halt)
    }

    /// Whether values of a list were tried at `i` until that ended as `halt` says.
    pub open spec fn increments_through_cut(
        a: Self,
        b: Self,
        i: usize,
        values: Seq<ValueView>,
        n: int,
        halt: ShrinkHalt,
    ) -> bool {
        Self::walk_cut(
            a,
            b,
            values.len() as int,
            Self::increment_step(i, values, n),
            Self::increment_part(i, values, n, halt),
        )
    }

    /// Whether increments of the choice at `i` were tried until that ended as `halt`
    /// says.
    pub open spec fn increments_cut(a: Self, b: Self, i: usize, halt: ShrinkHalt) -> bool {
        let node = a.target()[i as int];
        index_at(a.target(), i as int) matches Some(c) && !node.was_forced
            && Self::increments_through_cut(
            a,
            b,
            i,
            with_powers(index_values(node, c), node, 11),
            index_values(node, c).len() as int,
            halt,
        )
    }

    /// How a pass that raises the choices one by one ends at one of them.
    pub open spec fn increments_part(halt: ShrinkHalt) -> spec_fn(Self, Self, int) -> bool {
        |a: Self, b: Self, t: int| Self::increments_cut(a, b, t as usize, halt)
    }

    /// Offers `attempt`, which has a choice raised at `i`, without up to two of
    /// the choices right after it.
    fn offer_shortened(&mut self, attempt: &Vec<ChoiceNode>, i: usize) -> (r: Result<
        (),
        ShrinkHalt,
    >)
        requires
            old(self).wf(),
            i < attempt@.len(),
        ensures
            final(self).follows(*old(self)),
            final(self).ends(*old(self), r.err()),
            r is Ok ==> Self::shortened(
                *old(self),
                *final(self),
                nodes_view(attempt@),
                i as int,
                0,
            ),
            r matches Err(halt) ==> Self::shortening_cut(
                *old(self),
                *final(self),
                nodes_view(attempt@),
                i as int,
                0,
                halt,
            ),
            r is Ok && final(self).improvements == old(self).improvements ==> later_offered(
                final(self).history@,
                old(self).history@.len(),
                old(self).target(),
                nodes_view(attempt@),
                i as int,
            ),
    {
        let ghost start = *self;
        let ghost t = self.target();
        let ghost from = self.history@.len();
        let ghost whole = nodes_view(attempt@);
        let room: usize = attempt.len() - i - 1;
        let limit: usize = if room < 2 {
            room
        } else {
            2
        };
        let mut dropped: usize = 0;
        while dropped <= limit
            invariant
                start == *old(self),
                self.follows(start),
                self.goes_on(start),
                t == start.target(),
                from == start.history@.len(),
                whole == nodes_view(attempt@),
                i < attempt@.len(),
                room == attempt@.len() - i - 1,
                limit <= room,
                limit <= 2,
                room < 2 ==> limit == room,
                room >= 2 ==> limit == 2,
                dropped <= limit + 1,
                whole.len() == attempt@.len(),
                forall|b: Self| #[trigger]
                    Self::shortened(*self, b, whole, i as int, dropped as int) ==> Self::shortened(
                        start,
                        b,
                        whole,
                        i as int,
                        0,
                    ),
                forall|b: Self, halt: ShrinkHalt| #[trigger]
                    Self::shortening_cut(
                        *self,
                        b,
                        whole,
                        i as int,
                        dropped as int,
                        halt,
                    ) ==> Self::shortening_cut(start, b, whole, i as int, 0, halt),
                self.improvements == start.improvements ==> forall|d: int|
                    #![trigger less_after(whole, i as int, d)]
                    0 <= d < dropped ==> offered(
                        self.history@,
                        from,
                        t,
                        less_after(whole, i as int, d),
                    ),
            decreases limit + 1 - dropped,
        {
            let ghost before = *self;
            let mut kept: Vec<ChoiceNode> = Vec::new();
            let mut x: usize = 0;
            while x < attempt.len()
                invariant
                    x <= attempt@.len(),
                    i < attempt@.len(),
                    dropped <= attempt@.len() - i - 1,
                    kept@.len() == if x <= i + 1 {
                        x as int
                    } else if x <= i + 1 + dropped {
                        i + 1
                    } else {
                        x - dropped
                    },
                    forall|y: int|
                        0 <= y < kept@.len() ==> (#[trigger] kept@[y])@ == attempt@[if y <= i {
                            y
                        } else {
                            y + dropped
                        }]@,
                decreases attempt@.len() - x,
            {
                if x <= i || x > i + dropped {
                    kept.push(attempt[x].clone());
                }
                x = x + 1;
            }
            let ghost candidate = less_after(whole, i as int, dropped as int);
            assert(nodes_view(kept@) =~= candidate);
            let outcome = self.consider(kept.as_slice());
            proof {
                Self::lemma_follows_transitive(start, before, *self);
                if self.improvements == start.improvements {
                    assert(self.history@[before.history@.len() as int].candidate == candidate);
                    assert forall|d: int|
                        #![trigger less_after(whole, i as int, d)]
                        0 <= d < dropped + 1 implies offered(
                        self.history@,
                        from,
                        t,
                        less_after(whole, i as int, d),
                    ) by {
                        if d < dropped {
                            lemma_offered_moves(
                                before.history@,
                                self.history@,
                                from,
                                from,
                                t,
                                less_after(whole, i as int, d),
                            );
                        }
                    }
                    if outcome == Ok::<bool, ShrinkHalt>(true) {
                        assert(sort_key_of(candidate) == sort_key_of(t));
                    }
                }
            }
            match outcome {
                Ok(true) => {
                    assert(Self::shortened(before, *self, whole, i as int, dropped as int));
                    return Ok(());
                },
                Ok(false) => {
                    proof {
                        assert(self.considered(before, candidate, Ok(false)));
                        assert forall|b: Self| #[trigger]
                            Self::shortened(
                                *self,
                                b,
                                whole,
                                i as int,
                                dropped + 1,
                            ) implies Self::shortened(start, b, whole, i as int, 0) by {
                            assert(Self::shortened(before, b, whole, i as int, dropped as int));
                        }
                        assert forall|b: Self, halt: ShrinkHalt| #[trigger]
                            Self::shortening_cut(
                                *self,
                                b,
                                whole,
                                i as int,
                                dropped + 1,
                                halt,
                            ) implies Self::shortening_cut(
                            start,
                            b,
                            whole,
                            i as int,
                            0,
                            halt,
                        ) by {
                            assert(Self::shortening_cut(
                                before,
                                b,
                                whole,
                                i as int,
                                dropped as int,
                                halt,
                            ));
                        }
                    }
                },
                Err(halt) => {
                    assert(Self::shortening_cut(
                        before,
                        *self,
                        whole,
                        i as int,
                        dropped as int,
                        halt,
                    ));
                    return Err(halt);
                },
            }
            dropped = dropped + 1;
        }
        assert(Self::shortened(*self, *self, whole, i as int, dropped as int));
        Ok(())
    }

    /// Offers the target with `v` at `i` and all that follows made simplest.
    /// Where that is refused but took a shorter path, offers what follows as
    /// it is, less the first few choices.
    fn try_increment(&mut self, i: usize, v: &ChoiceValue, by_index: bool) -> (r: Result<
        (),
        ShrinkHalt,
    >)
        requires
            old(self).wf(),
        ensures
            final(self).follows(*old(self)),
            final(self).ends(*old(self), r.err()),
            r is Ok ==> Self::incremented(*old(self), *final(self), i, v@, by_index),
            r matches Err(halt) ==> Self::increment_cut(
                *old(self),
                *final(self),
                i,
                v@,
                by_index,
                halt,
            ),
            r is Ok && final(self).improvements == old(self).improvements && i
                < old(self).target().len() && value_fits(
                old(self).target()[i as int].kind,
                v@,
            ) ==> increment_offered(
                final(self).history@,
                old(self).history@.len(),
                old(self).target(),
                i,
                v@,
            ) && (by_index ==> increment_followed(
                final(self).history@,
                old(self).history@.len(),
                final(self).runs@,
                old(self).target(),
                i,
                v@,
            )),
    {
        let ghost start = *self;
        let ghost t = self.target();
        let ghost from = self.history@.len();
        if i >= self.current_nodes.len() {
            return Ok(());
        }
        let mut attempt = copy_nodes(self.current_nodes.as_slice());
        assert(nodes_view(attempt@).len() == attempt@.len());
        assert(nodes_view(attempt@)[i as int] == attempt@[i as int]@);
        match attempt[i].with_value(v) {
            None => {
                return Ok(());
            },
            Some(bumped) => {
                attempt.set(i, bumped);
            },
        }
        assert(nodes_view(attempt@) =~= with_value_at(t, i as int, v@));
        let zeroed = match zero_from(&attempt, i + 1) {
            Ok(nodes) => nodes,
            Err(e) => {
                return Err(ShrinkHalt::internal(e));
            },
        };
        let ghost candidate = zeroed_from(with_value_at(t, i as int, v@), i + 1);
        let taken = match self.consider(zeroed.as_slice()) {
            Ok(b) => b,
            Err(halt) => {
                return Err(halt);
            },
        };
        let ghost s1 = *self;
        assert(s1.history@[from as int].candidate == candidate);
        if taken || !by_index {
            proof {
                assert(self.considered(start, candidate, Ok(taken)));
                assert(Self::incremented_by(
                    start,
                    *self,
                    with_value_at(t, i as int, v@),
                    candidate,
                    i as int,
                    by_index,
                ));
            }
            return Ok(());
        }
        let run = self.run_test_fn(ShrinkRun::Full(zeroed.as_slice()));
        let ghost s2 = *self;
        proof {
            Self::lemma_inspection_is_followed(s1, s2, RunView::Full(candidate), run);
            Self::lemma_follows_transitive(start, s1, s2);
        }
        match run {
            Err(halt) => {
                proof {
                    assert(s1.considered(start, candidate, Ok(false)));
                    assert(Self::follow_up_cut(
                        s1,
                        *self,
                        with_value_at(t, i as int, v@),
                        candidate,
                        i as int,
                        halt,
                    ));
                }
                Err(halt)
            },
            Ok((_interesting, shortened, _spans)) => {
                let ghost u = s2.runs@.len() - 1;
                proof {
                    assert(nodes_view(shortened@).len() == shortened@.len());
                    assert(s2.runs@[u].answer->Some_0.nodes.len() == shortened@.len());
                    assert(s2.target().len() == s2.current_nodes@.len());
                }
                let ghost whole = with_value_at(t, i as int, v@);
                proof {
                    assert(s1.considered(start, candidate, Ok(false)));
                    assert(Self::looked_at(s1, s2, candidate));
                }
                if shortened.len() >= self.current_nodes.len() {
                    proof {
                        assert(Self::followed_up(s1, *self, whole, candidate, i as int));
                        assert(Self::incremented_by(
                            start,
                            *self,
                            whole,
                            candidate,
                            i as int,
                            true,
                        ));
                    }
                    return Ok(());
                }
                let outcome = self.offer_shortened(&attempt, i);
                proof {
                    if outcome is Err {
                        assert(Self::follow_up_cut(
                            s1,
                            *self,
                            whole,
                            candidate,
                            i as int,
                            outcome->Err_0,
                        ));
                    }
                    if outcome is Ok {
                        assert(Self::followed_up(s1, *self, whole, candidate, i as int));
                        assert(Self::incremented_by(
                            start,
                            *self,
                            whole,
                            candidate,
                            i as int,
                            true,
                        ));
                    }
                    Self::lemma_follows_transitive(start, s2, *self);
                    lemma_offered_moves(s2.history@, self.history@, from, from, t, candidate);
                    if outcome is Ok && self.improvements == start.improvements {
                        assert(self.runs@[u] == s2.runs@[u]);
                        lemma_later_stays(
                            self.history@,
                            self.history@,
                            s2.history@.len(),
                            from,
                            t,
                            with_value_at(t, i as int, v@),
                            i as int,
                        );
                    }
                }
                outcome
            },
        }
    }

    /// Offers all increments of the choice at `i`.
    fn try_increments_at(&mut self, i: usize) -> (r: Result<(), ShrinkHalt>)
        requires
            old(self).wf(),
        ensures
            final(self).follows(*old(self)),
            final(self).ends(*old(self), r.err()),
            r is Ok ==> Self::increments_made(*old(self), *final(self), i),
            r matches Err(halt) ==> Self::increments_cut(*old(self), *final(self), i, halt),
            r is Ok && final(self).improvements == old(self).improvements ==> increments_offered(
                final(self).history@,
                old(self).history@.len(),
                final(self).runs@,
                old(self).target(),
                i,
            ),
    {
        let ghost start = *self;
        let ghost t = self.target();
        let ghost from = self.history@.len();
        if i >= self.current_nodes.len() {
            return Ok(());
        }
        let node = self.current_nodes[i].clone();
        assert(t[i as int] == node@);
        if node.was_forced || is_sequence(&node.data) {
            return Ok(());
        }
        let current = match node.data.to_index() {
            Some(c) => c,
            None => {
                return Ok(());
            },
        };
        let mut values = index_increments(&node, &current);
        let by_index: usize = values.len();
        let ghost front = values_view(values@);
        push_powers(&mut values, &node);
        proof {
            lemma_extended_covers(values_view(values@), front);
        }
        let mut x: usize = 0;
        let ghost list = values_view(values@);
        let ghost step = Self::increment_step(i, list, by_index as int);
        let ghost mut marks = seq![*self];
        assert(front.len() == by_index);
        while x < values.len()
            invariant
                list == values_view(values@),
                list.len() == values@.len(),
                step == Self::increment_step(i, list, by_index as int),
                Self::walking(marks, start, step),
                marks.last() == *self,
                marks.len() == x + 1,
                start == *old(self),
                self.follows(start),
                self.goes_on(start),
                t == start.target(),
                from == start.history@.len(),
                i < t.len(),
                t[i as int] == node@,
                x <= values@.len(),
                by_index <= values@.len(),
                !node@.was_forced,
                index_at(t, i as int) == Some(current@),
                list == with_powers(index_values(node@, current@), node@, 11),
                by_index == index_values(node@, current@).len(),
                forall|v: ValueView| #[trigger]
                    values_view(values@).contains(v) ==> value_fits(node@.kind, v),
                self.improvements == start.improvements ==> forall|y: int|
                    0 <= y < x ==> increment_offered(
                        self.history@,
                        from,
                        t,
                        i,
                        #[trigger] values_view(values@)[y],
                    ) && (y < by_index ==> increment_followed(
                        self.history@,
                        from,
                        self.runs@,
                        t,
                        i,
                        values_view(values@)[y],
                    )),
            decreases values@.len() - x,
        {
            let ghost before = *self;
            let outcome = self.try_increment(i, &values[x], x < by_index);
            proof {
                Self::lemma_follows_transitive(start, before, *self);
                assert(Self::walked(start, before, x as int, step));
                assert(values_view(values@)[x as int] == values@[x as int]@);
                assert(values_view(values@).contains(values@[x as int]@));
                if outcome is Ok && self.improvements == start.improvements {
                    assert forall|y: int| 0 <= y < x + 1 implies increment_offered(
                        self.history@,
                        from,
                        t,
                        i,
                        #[trigger] values_view(values@)[y],
                    ) && (y < by_index ==> increment_followed(
                        self.history@,
                        from,
                        self.runs@,
                        t,
                        i,
                        values_view(values@)[y],
                    )) by {
                        let h = if y == x {
                            self.history@
                        } else {
                            before.history@
                        };
                        let f = if y == x {
                            before.history@.len()
                        } else {
                            from
                        };
                        lemma_offered_moves(
                            h,
                            self.history@,
                            f,
                            from,
                            t,
                            zeroed_from(
                                with_value_at(t, i as int, values_view(values@)[y]),
                                i + 1,
                            ),
                        );
                        if y < by_index {
                            let runs = if y == x {
                                self.runs@
                            } else {
                                before.runs@
                            };
                            lemma_followed_stays(
                                h,
                                self.history@,
                                f,
                                from,
                                runs,
                                self.runs@,
                                t,
                                i,
                                values_view(values@)[y],
                            );
                        }
                    }
                }
            }
            match outcome {
                Ok(()) => {},
                Err(halt) => {
                    return Err(halt);
                },
            }
            proof {
                Self::lemma_stepped(marks, start, step, *self);
                marks = marks.push(*self);
            }
            x = x + 1;
        }
        assert(Self::walked(start, *self, list.len() as int, step));
        assert(Self::incremented_through(start, *self, i, list, by_index as int));
        proof {
            if self.improvements == start.improvements {
                assert forall|v: ValueView|
                    is_index_increment(t[i as int], current@, v) || is_power_increment(
                        t[i as int],
                        v,
                    ) implies #[trigger] increment_offered(self.history@, from, t, i, v) by {
                    assert(values_view(values@).contains(v));
                    let y = choose|y: int|
                        0 <= y < values_view(values@).len() && values_view(values@)[y] == v;
                    assert(values_view(values@)[y] == v);
                }
                assert forall|v: ValueView|
                    is_index_increment(
                        t[i as int],
                        current@,
                        v,
                    ) implies #[trigger] increment_followed(
                    self.history@,
                    from,
                    self.runs@,
                    t,
                    i,
                    v,
                ) by {
                    assert(front.contains(v));
                    let y = choose|y: int| 0 <= y < front.len() && front[y] == v;
                    assert(values_view(values@)[y] == v);
                }
            }
        }
        Ok(())
    }

    /// Raises the index of each choice to see whether the test then takes a
    /// shorter path. Where it does, what follows is offered as it is, less the
    /// first few choices.
    ///
    /// Unless something better turns up, every choice with an index that was
    /// not forced is tried at a few larger indices, and an integer at the
    /// small powers of two, with all that follows made simplest.
    pub fn try_shortening_via_increment(&mut self) -> (r: Result<(), ShrinkHalt>)
        requires
            old(self).wf(),
        ensures
            final(self).follows(*old(self)),
            final(self).ends(*old(self), r.err()),
            r is Ok ==> Self::walked_through(*old(self), *final(self), Self::increments_step()),
            r matches Err(halt) ==> Self::walk_through_cut(
                *old(self),
                *final(self),
                Self::increments_step(),
                Self::increments_part(halt),
            ),
            old(self).target().len() == 0 ==> r == Ok::<(), ShrinkHalt>(()) && *final(self)
                == *old(self),
            r is Ok && final(self).improvements == old(self).improvements ==> all_increments_offered(
                final(self).history@,
                old(self).history@.len(),
                final(self).runs@,
                old(self).target(),
            ),
    {
        let ghost start = *self;
        let ghost t = self.target();
        let ghost from = self.history@.len();
        let mut i: usize = 0;
        let ghost step = Self::increments_step();
        let ghost mut marks = seq![*self];
        while i < self.current_nodes.len()
            invariant
                step == Self::increments_step(),
                Self::walking(marks, start, step),
                marks.last() == *self,
                marks.len() == i + 1,
                start == *old(self),
                self.follows(start),
                self.goes_on(start),
                t == start.target(),
                from == start.history@.len(),
                t.len() == 0 ==> *self == start,
                self.improvements == start.improvements ==> forall|j: usize|
                    j < i ==> #[trigger] increments_offered(self.history@, from, self.runs@, t, j),
            decreases
                if i <= self.current_nodes@.len() {
                    self.current_nodes@.len() - i
                } else {
                    0
                },
        {
            let ghost before = *self;
            let outcome = self.try_increments_at(i);
            proof {
                Self::lemma_follows_transitive(start, before, *self);
                assert(Self::walked(start, before, i as int, step));
                assert(self.target().len() == self.current_nodes@.len());
                assert(before.target().len() == before.current_nodes@.len());
                if outcome is Ok && self.improvements == start.improvements {
                    assert forall|j: usize| j < i + 1 implies #[trigger] increments_offered(
                        self.history@,
                        from,
                        self.runs@,
                        t,
                        j,
                    ) by {
                        let h = if j == i {
                            self.history@
                        } else {
                            before.history@
                        };
                        let f = if j == i {
                            before.history@.len()
                        } else {
                            from
                        };
                        let runs = if j == i {
                            self.runs@
                        } else {
                            before.runs@
                        };
                        assert(increments_offered(h, f, runs, t, j));
                        lemma_increments_stay(
                            h,
                            self.history@,
                            f,
                            from,
                            runs,
                            self.runs@,
                            t,
                            j,
                        );
                    }
                }
            }
            match outcome {
                Ok(()) => {},
                Err(halt) => {
                    return Err(halt);
                },
            }
            proof {
                Self::lemma_stepped(marks, start, step, *self);
                marks = marks.push(*self);
            }
            i = i + 1;
        }
        proof {
            assert(self.target().len() == self.current_nodes@.len());
            assert(Self::walked(start, *self, i as int, step));
        }
        Ok(())
    }
}

} // verus!
