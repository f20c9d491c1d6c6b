//! Shrinking: what was tried on a target before the search settled for it.
use crate::bignum::bit_length;
use crate::bignum::lemma_bit_length;
use crate::bignum::magnitude_of;
use crate::choices::index_of;
use crate::choices::max_index_of;
use crate::choices::simplest_of;
use crate::choices::value_at;
use crate::choices::value_fits;
use crate::choices::ChoiceData;
use crate::choices::IntegerKind;
use crate::choices::KindView;
use crate::choices::NodeView;
use crate::choices::ValueView;
use crate::errors::RunError;
use crate::order::simpler;
use crate::order::sort_key_of;
use crate::shrinker::all_in_vain;
use crate::shrinker::applicable;
use crate::shrinker::applied;
use crate::shrinker::duplicates::duplicates;
use crate::shrinker::duplicates::group_of;
use crate::shrinker::duplicates::group_reps;
use crate::shrinker::duplicates::group_shrunk;
use crate::shrinker::duplicates::group_upto;
use crate::shrinker::duplicates::groups_tried;
use crate::shrinker::duplicates::is_first;
use crate::shrinker::index_passes::absolute_bumps_tried;
use crate::shrinker::index_passes::all_lowerings_tried;
use crate::shrinker::index_passes::bump_same;
use crate::shrinker::index_passes::bump_tried;
use crate::shrinker::index_passes::bumps_tried;
use crate::shrinker::index_passes::index_at;
use crate::shrinker::index_passes::is_lowering;
use crate::shrinker::index_passes::is_sequence;
use crate::shrinker::index_passes::lowering_tried;
use crate::shrinker::index_passes::lowerings_tried;
use crate::shrinker::index_passes::pair_reps;
use crate::shrinker::index_passes::some_bump_same;
use crate::shrinker::index_passes::with_value_at;
use crate::shrinker::index_passes::zeroed_from;
use crate::shrinker::integers::all_distances_tried;
use crate::shrinker::integers::both_nearer;
use crate::shrinker::integers::descent_tried;
use crate::shrinker::integers::distances_tried;
use crate::shrinker::integers::entries_of;
use crate::shrinker::integers::integer_node;
use crate::shrinker::integers::moved_all;
use crate::shrinker::integers::moves_tried;
use crate::shrinker::integers::pairs_tried;
use crate::shrinker::integers::set_int;
use crate::shrinker::integers::signs_tried;
use crate::shrinker::integers::sweep_tried;
use crate::shrinker::integers::sweeps_tried;
use crate::shrinker::integers::tried_at;
use crate::shrinker::integers::zero_reps;
use crate::shrinker::offered;
use crate::shrinker::offsets::changed_upto;
use crate::shrinker::offsets::movers_of;
use crate::shrinker::offsets::nearer_reps;
use crate::shrinker::schedule::all_passes_tried;
use crate::shrinker::schedule::pass_order;
use crate::shrinker::schedule::pass_tried;
use crate::shrinker::shortening::all_increments_offered;
use crate::shrinker::shortening::increment_followed;
use crate::shrinker::shortening::increment_offered;
use crate::shrinker::shortening::increments_offered;
use crate::shrinker::shortening::is_index_increment;
use crate::shrinker::shortening::is_index_step;
use crate::shrinker::shortening::is_power_increment;
use crate::shrinker::shortening::is_signed_power;
use crate::shrinker::shortening::later_offered;
use crate::shrinker::shortening::less_after;
use crate::shrinker::tried;
use crate::shrinker::Offer;
use crate::shrinker::Run;
use crate::shrinker::RunView;
use crate::shrinker::ShrinkHalt;
use crate::shrinker::ShrinkProbe;
use crate::shrinker::Shrinker;
use vstd::arithmetic::power2::lemma2_to64;
use vstd::arithmetic::power2::lemma_pow2_pos;
use vstd::arithmetic::power2::lemma_pow2_strictly_increases;
use vstd::arithmetic::power2::pow2;
use vstd::prelude::*;

verus! {

/// Whether a search that has just begun is left to come to its end: it has no deadline,
/// no run of the test ends it, and it does not use up its improvements.
pub open spec fn is_left_alone<P: ShrinkProbe>(before: Shrinker<P>, after: Shrinker<P>) -> bool {
    &&& before.history@.len() == 0
    &&& before.runs@.len() == 0
    &&& before.all_changed_nodes@ == Set::<usize>::empty()
    &&& before.deadline is None
    &&& !before.timed_out
    &&& forall|u: int| 0 <= u < after.runs@.len() ==> (#[trigger] after.runs@[u]).halt is None
    &&& after.improvements < after.max_improvements
}

/// Whether a candidate was offered in place of a target, and not found to fail with
/// anything simpler.
pub open spec fn is_in_vain(o: Offer, runs: Seq<Run>) -> bool {
    match o.run {
        Some(u) => {
            &&& 0 <= u < runs.len()
            &&& runs[u].request == RunView::Full(o.candidate)
            &&& !(runs[u].answer matches Some(a) && a.failed && simpler(a.nodes, o.target))
        },
        None => o.taken <==> sort_key_of(o.candidate) == sort_key_of(o.target),
    }
}

/// Whether choices were offered in place of the target, and came to nothing.
pub open spec fn came_to_nothing<P: ShrinkProbe>(s: Shrinker<P>, choices: Seq<NodeView>) -> bool {
    exists|x: int|
        {
            &&& 0 <= x < s.history@.len()
            &&& (#[trigger] s.history@[x]).candidate == choices
            &&& s.history@[x].target == s.target()
            &&& is_in_vain(s.history@[x], s.runs@)
        }
}

/// The choices with another value at one place.
pub open spec fn with_one(t: Seq<NodeView>, i: int, v: ValueView) -> Seq<NodeView> {
    t.update(i, NodeView { value: v, ..t[i] })
}

/// The choices with those after a place made simplest.
pub open spec fn simplest_after(t: Seq<NodeView>, i: int) -> Seq<NodeView> {
    Seq::new(
        t.len(),
        |j: int|
            if j <= i {
                t[j]
            } else {
                NodeView { value: simplest_of(t[j].kind)->Some_0, ..t[j] }
            },
    )
}

/// The choices without those that follow a place, up to so many.
pub open spec fn without_after(t: Seq<NodeView>, i: int, d: int) -> Seq<NodeView> {
    Seq::new(
        (t.len() - d) as nat,
        |j: int|
            if j <= i {
                t[j]
            } else {
                t[j + d]
            },
    )
}

/// What a search that was left alone has tried since some point.
proof fn lemma_settled<P: ShrinkProbe>(
    before: Shrinker<P>,
    after: Shrinker<P>,
    r: Result<(), RunError>,
) -> (from: nat)
    requires
        exists|m: &mut Shrinker<P>| #[trigger]
            call_ensures(Shrinker::<P>::shrink, (m,), r) && *m == before && *final(m) == after,
        before.wf(),
        is_left_alone(before, after),
        r is Ok,
    ensures
        sweeps_tried(after.history@, from, after.target(), after.target().len() as int),
        signs_tried(after.history@, from, after.target()),
        all_distances_tried(after.history@, from, after.target()),
        moves_tried(after.history@, from, after.target()),
        pairs_tried(after.history@, from, after.target()),
        groups_tried(after.history@, from, after.target()),
        all_lowerings_tried(after.history@, from, after.target()),
        all_increments_offered(after.history@, from, after.runs@, after.target()),
        forall|c: Seq<NodeView>| #[trigger]
            offered(after.history@, from, after.target(), c) ==> came_to_nothing(after, c),
{
    assert(after.is_settled());
    let t = after.target();
    let (from, changed) = choose|from: nat, changed: Set<usize>|
        from <= after.history@.len() && #[trigger] all_passes_tried(
            after.history@,
            from,
            after.runs@,
            t,
            changed,
        ) && all_in_vain(after.history@, from as int, after.runs@, t);
    let order = pass_order();
    assert(order.len() == 9);
    assert forall|k: int| 0 <= k < 9 implies pass_tried(
        #[trigger] order[k],
        after.history@,
        from,
        after.runs@,
        t,
        changed,
    ) by {}
    assert(pass_tried(order[0], after.history@, from, after.runs@, t, changed));
    assert(pass_tried(order[1], after.history@, from, after.runs@, t, changed));
    assert(pass_tried(order[2], after.history@, from, after.runs@, t, changed));
    assert(pass_tried(order[3], after.history@, from, after.runs@, t, changed));
    assert(pass_tried(order[5], after.history@, from, after.runs@, t, changed));
    assert(pass_tried(order[6], after.history@, from, after.runs@, t, changed));
    assert(pass_tried(order[7], after.history@, from, after.runs@, t, changed));
    assert(pass_tried(order[8], after.history@, from, after.runs@, t, changed));
    assert forall|c: Seq<NodeView>| #[trigger] offered(after.history@, from, t, c) implies came_to_nothing(
        after,
        c,
    ) by {
        let x = choose|x: int|
            from <= x < after.history@.len() && (#[trigger] after.history@[x]).target == t
                && after.history@[x].candidate == c;
        let o = after.history@[x];
        assert(is_in_vain(o, after.runs@));
    }
    from
}

/// Of the choices, the passes that go by the order of values leave out strings and byte
/// strings, and no others.
pub proof fn lemma_only_strings_are_sequences(data: ChoiceData, r: bool)
    requires
        call_ensures(is_sequence, (&data,), r),
    ensures
        r <==> data is Bytes || data is String,
{
}

/// One replacement is what it says.
proof fn lemma_one_replacement(t: Seq<NodeView>, i: usize, v: ValueView)
    requires
        i < t.len(),
    ensures
        applied(t, seq![(i, v)]) == with_one(t, i as int, v),
        applicable(t, seq![(i, v)]) <==> !t[i as int].was_forced && value_fits(
            t[i as int].kind,
            v,
        ),
{
    reveal_with_fuel(applied, 2);
    let reps = seq![(i, v)];
    assert(reps.drop_last() =~= Seq::empty());
    assert(reps.last() == (i, v));
    if applicable(t, reps) {
        assert(reps[0].0 == i);
    }
}

/// Two replacements are what they say.
proof fn lemma_two_replacements(
    t: Seq<NodeView>,
    i: usize,
    v: ValueView,
    j: usize,
    w: ValueView,
)
    requires
        i < t.len(),
        j < t.len(),
        i != j,
    ensures
        applied(t, seq![(i, v), (j, w)]) == with_one(with_one(t, i as int, v), j as int, w),
        applicable(t, seq![(i, v), (j, w)]) <==> !t[i as int].was_forced && value_fits(
            t[i as int].kind,
            v,
        ) && !t[j as int].was_forced && value_fits(t[j as int].kind, w),
{
    reveal_with_fuel(applied, 3);
    let reps = seq![(i, v), (j, w)];
    assert(reps.drop_last() =~= seq![(i, v)]);
    assert(reps.drop_last().drop_last() =~= Seq::empty());
    if applicable(t, reps) {
        assert(reps[0].0 == i);
        assert(reps[1].0 == j);
    }
}

/// A target that a search settles for was tried with every choice that has an index, and
/// was not forced, raised by one, two, four, eight and sixteen, and to the largest index,
/// with all that follows made simplest. Where the test then makes fewer choices, it was
/// also tried with what follows left as it is, and without the one or the two choices
/// that follow. Booleans, integers and floating-point values are left out by none of
/// this.
pub proof fn lemma_settled_targets_were_raised<P: ShrinkProbe>(
    before: Shrinker<P>,
    after: Shrinker<P>,
    r: Result<(), RunError>,
    i: int,
    c: nat,
    raised: nat,
    v: ValueView,
)
    requires
        exists|m: &mut Shrinker<P>| #[trigger]
            call_ensures(Shrinker::<P>::shrink, (m,), r) && *m == before && *final(m) == after,
        before.wf(),
        is_left_alone(before, after),
        r is Ok,
        0 <= i < after.target().len(),
        !after.target()[i].was_forced,
        after.target()[i].kind is Boolean || after.target()[i].kind is Integer
            || after.target()[i].kind is Float,
        index_of(after.target()[i].kind, after.target()[i].value) == Some(c),
        raised == c + 1 || raised == c + 2 || raised == c + 4 || raised == c + 8 || raised == c + 16
            || Some(raised) == max_index_of(after.target()[i].kind),
        value_at(after.target()[i].kind, raised) == Some(v),
        v != after.target()[i].value,
    ensures
        ({
            let t = after.target();
            let attempt = with_one(t, i, v);
            let zeroed = simplest_after(attempt, i);
            &&& came_to_nothing(after, zeroed)
            &&& sort_key_of(zeroed) == sort_key_of(t) || exists|u: int|
                {
                    &&& 0 <= u < after.runs@.len()
                    &&& (#[trigger] after.runs@[u]).request == RunView::Full(zeroed)
                    &&& after.runs@[u].answer is Some
                    &&& after.runs@[u].answer->Some_0.nodes.len() < t.len() ==> forall|d: int|
                        #![trigger without_after(attempt, i, d)]
                        0 <= d <= 2 && d < t.len() - i ==> came_to_nothing(
                            after,
                            without_after(attempt, i, d),
                        ) || exists|e: int|
                            0 <= e < d && sort_key_of(#[trigger] without_after(attempt, i, e))
                                == sort_key_of(t)
                }
        }),
{
    let from = lemma_settled(before, after, r);
    let t = after.target();
    let h = after.history@;
    assert(after.current_nodes.len() == after.current_nodes@.len());
    let at = i as usize;
    assert(increments_offered(h, from, after.runs@, t, at));
    assert(is_index_step(1) && is_index_step(2) && is_index_step(4) && is_index_step(8)
        && is_index_step(16));
    assert(is_index_increment(t[i], c, v));
    assert(increment_offered(h, from, t, at, v));
    assert(increment_followed(h, from, after.runs@, t, at, v));
    let attempt = with_one(t, i, v);
    assert(with_value_at(t, i, v) =~= attempt);
    assert(zeroed_from(attempt, i + 1) =~= simplest_after(attempt, i));
    assert forall|d: int| 0 <= d <= t.len() - i - 1 implies less_after(attempt, i, d)
        == #[trigger] without_after(attempt, i, d) by {
        assert(less_after(attempt, i, d) =~= without_after(attempt, i, d));
    }
    if sort_key_of(simplest_after(attempt, i)) != sort_key_of(t) {
        let zeroed = simplest_after(attempt, i);
        let u = choose|u: int|
            0 <= u < after.runs@.len() && (#[trigger] after.runs@[u]).request == RunView::Full(
                zeroed,
            ) && !after.runs@[u].considered && after.runs@[u].answer is Some && (
            after.runs@[u].answer->Some_0.nodes.len() < t.len() ==> later_offered(
                h,
                from,
                t,
                attempt,
                i,
            ));
        assert(after.runs@[u].request == RunView::Full(zeroed));
        if after.runs@[u].answer->Some_0.nodes.len() < t.len() {
            assert forall|d: int|
                #![trigger without_after(attempt, i, d)]
                0 <= d <= 2 && d < t.len() - i implies came_to_nothing(
                after,
                without_after(attempt, i, d),
            ) || exists|e: int|
                0 <= e < d && sort_key_of(#[trigger] without_after(attempt, i, e)) == sort_key_of(
                    t,
                ) by {
                assert(less_after(attempt, i, d) == without_after(attempt, i, d));
                if !offered(h, from, t, less_after(attempt, i, d)) {
                    let e = choose|e: int|
                        0 <= e < d && sort_key_of(#[trigger] less_after(attempt, i, e))
                            == sort_key_of(t);
                    assert(less_after(attempt, i, e) == without_after(attempt, i, e));
                }
            }
        }
    }
}

/// A target that a search settles for was tried with every integer that was not forced
/// at one, two, four and so on up to a thousand and twenty-four, and at their negations,
/// as far as its range allows, with all that follows made simplest.
pub proof fn lemma_settled_targets_were_tried_at_powers<P: ShrinkProbe>(
    before: Shrinker<P>,
    after: Shrinker<P>,
    r: Result<(), RunError>,
    i: int,
    k: IntegerKind,
    x: int,
    e: nat,
    y: int,
)
    requires
        exists|m: &mut Shrinker<P>| #[trigger]
            call_ensures(Shrinker::<P>::shrink, (m,), r) && *m == before && *final(m) == after,
        before.wf(),
        is_left_alone(before, after),
        r is Ok,
        0 <= i < after.target().len(),
        !after.target()[i].was_forced,
        after.target()[i].kind == KindView::Integer(k),
        after.target()[i].value == ValueView::Integer(x),
        k.min <= x <= k.max,
        e <= 10,
        y == pow2(e) || y == -(pow2(e) as int),
        k.min <= y <= k.max,
        y != x,
    ensures
        came_to_nothing(
            after,
            simplest_after(with_one(after.target(), i, ValueView::Integer(y)), i),
        ),
{
    let from = lemma_settled(before, after, r);
    let t = after.target();
    let h = after.history@;
    assert(after.current_nodes.len() == after.current_nodes@.len());
    let at = i as usize;
    let v = ValueView::Integer(y);
    assert(increments_offered(h, from, after.runs@, t, at));
    assert(is_signed_power(e, y));
    assert(is_power_increment(t[i], v));
    assert(increment_offered(h, from, t, at, v));
    let attempt = with_one(t, i, v);
    assert(with_value_at(t, i, v) =~= attempt);
    assert(zeroed_from(attempt, i + 1) =~= simplest_after(attempt, i));
}

/// A target that a search settles for was tried with every choice that has an index
/// above zero lowered to the simplest value and to the one just before: alone, with all
/// that follows made simplest, and together with raising the index of one of the three
/// choices that follow by one. Booleans, integers and floating-point values are left out
/// by none of this.
pub proof fn lemma_settled_targets_were_lowered<P: ShrinkProbe>(
    before: Shrinker<P>,
    after: Shrinker<P>,
    r: Result<(), RunError>,
    i: int,
    c: nat,
    lowered: nat,
    v: ValueView,
    j: int,
    d: nat,
    w: ValueView,
)
    requires
        exists|m: &mut Shrinker<P>| #[trigger]
            call_ensures(Shrinker::<P>::shrink, (m,), r) && *m == before && *final(m) == after,
        before.wf(),
        is_left_alone(before, after),
        r is Ok,
        0 <= i < j < after.target().len(),
        j <= i + 3,
        after.target()[i].kind is Boolean || after.target()[i].kind is Integer
            || after.target()[i].kind is Float,
        index_of(after.target()[i].kind, after.target()[i].value) == Some(c),
        c > 0,
        lowered == 0 || lowered == c - 1,
        value_at(after.target()[i].kind, lowered) == Some(v),
    ensures
        came_to_nothing(after, with_one(after.target(), i, v)),
        came_to_nothing(after, simplest_after(with_one(after.target(), i, v), i)),
        !after.target()[i].was_forced && !after.target()[j].was_forced && (
        after.target()[j].kind is Boolean || after.target()[j].kind is Integer
            || after.target()[j].kind is Float) && index_of(
            after.target()[j].kind,
            after.target()[j].value,
        ) == Some(d) && value_at(after.target()[j].kind, d + 1) == Some(w) && value_fits(
            after.target()[i].kind,
            v,
        ) && value_fits(after.target()[j].kind, w) ==> came_to_nothing(
            after,
            with_one(with_one(after.target(), i, v), j, w),
        ),
{
    let from = lemma_settled(before, after, r);
    let t = after.target();
    let h = after.history@;
    assert(after.current_nodes.len() == after.current_nodes@.len());
    let at = i as usize;
    assert(lowerings_tried(h, from, t, at, 1));
    assert(lowerings_tried(h, from, t, at, j - i));
    assert(index_at(t, at as int) == Some(c));
    assert(index_at(t, at as int)->Some_0 == c);
    assert(is_lowering(t[at as int].kind, index_at(t, at as int)->Some_0, v));
    assert(lowering_tried(h, from, t, at, v, 1));
    assert(lowering_tried(h, from, t, at, v, j - i));
    let attempt = with_one(t, i, v);
    assert(with_value_at(t, i, v) =~= attempt);
    assert(zeroed_from(attempt, i + 1) =~= simplest_after(attempt, i));
    assert(bumps_tried(h, from, t, at, v, j as usize));
    lemma_two_replacements(t, at, v, j as usize, w);
    assert(pair_reps(at, v, j as usize, w) == seq![(at, v), (j as usize, w)]);
    if index_of(t[j].kind, t[j].value) == Some(d) && value_at(t[j].kind, d + 1) == Some(w) {
        assert(bump_tried(h, from, t, at, v, j as usize, d + 1) || t[j].kind is Bytes
            || t[j].kind is String);
    }
}

/// With blocks of one, a sweep tries every choice.
proof fn lemma_sweep_reaches(h: Seq<Offer>, from: nat, t: Seq<NodeView>, i: int, j: int)
    requires
        0 <= i <= j < t.len(),
        sweep_tried(h, from, t, 1, i),
        simplest_of(t[j].kind) != Some(t[j].value),
    ensures
        tried(h, from, t, zero_reps(t, j, j + 1)),
    decreases j - i,
{
    if i < j {
        lemma_sweep_reaches(h, from, t, i + 1, j);
    }
}

/// Halving the blocks comes to blocks of one.
proof fn lemma_sweeps_reach_one(h: Seq<Offer>, from: nat, t: Seq<NodeView>, k: int)
    requires
        k >= 1,
        sweeps_tried(h, from, t, k),
    ensures
        sweep_tried(h, from, t, 1, 0),
    decreases k,
{
    if k > 1 {
        lemma_sweeps_reach_one(h, from, t, k / 2);
    }
}

/// A target that a search settles for was tried with every choice that was not forced
/// made simplest.
pub proof fn lemma_settled_targets_were_simplified<P: ShrinkProbe>(
    before: Shrinker<P>,
    after: Shrinker<P>,
    r: Result<(), RunError>,
    i: int,
    v: ValueView,
)
    requires
        exists|m: &mut Shrinker<P>| #[trigger]
            call_ensures(Shrinker::<P>::shrink, (m,), r) && *m == before && *final(m) == after,
        before.wf(),
        is_left_alone(before, after),
        r is Ok,
        0 <= i < after.target().len(),
        !after.target()[i].was_forced,
        simplest_of(after.target()[i].kind) == Some(v),
        value_fits(after.target()[i].kind, v),
        v != after.target()[i].value,
    ensures
        came_to_nothing(after, with_one(after.target(), i, v)),
{
    let from = lemma_settled(before, after, r);
    let t = after.target();
    assert(after.current_nodes.len() == after.current_nodes@.len());
    lemma_sweeps_reach_one(after.history@, from, t, t.len() as int);
    lemma_sweep_reaches(after.history@, from, t, 0, i);
    lemma_one_replacement(t, i as usize, v);
    assert(zero_reps(t, i, i + 1) =~= seq![(i as usize, v)]);
}

/// A target that a search settles for was tried with every integer that was not forced
/// at the value that it shrinks towards, and, where it is negative, with its sign
/// changed. It was tried half as far from that value, and one step and two steps nearer
/// to it, on either side.
pub proof fn lemma_settled_targets_were_brought_nearer<P: ShrinkProbe>(
    before: Shrinker<P>,
    after: Shrinker<P>,
    r: Result<(), RunError>,
    i: int,
    k: IntegerKind,
    goal: int,
    x: int,
    y: int,
)
    requires
        exists|m: &mut Shrinker<P>| #[trigger]
            call_ensures(Shrinker::<P>::shrink, (m,), r) && *m == before && *final(m) == after,
        before.wf(),
        is_left_alone(before, after),
        r is Ok,
        0 <= i < after.target().len(),
        !after.target()[i].was_forced,
        after.target()[i].kind == KindView::Integer(k),
        after.target()[i].value == ValueView::Integer(x),
        k.min <= k.max,
        goal == if k.towards < k.min {
            k.min
        } else if k.towards > k.max {
            k.max
        } else {
            k.towards
        },
        x != goal,
        y == goal || (x < 0 && y == -x) || ({
            let d = if x > goal {
                x - goal
            } else {
                goal - x
            };
            y == goal + d / 2 || y == goal + d - 1 || (d > 1 && y == goal + d - 2)
        }),
        k.min <= y <= k.max,
    ensures
        came_to_nothing(after, with_one(after.target(), i, ValueView::Integer(y))),
{
    let from = lemma_settled(before, after, r);
    let t = after.target();
    let h = after.history@;
    assert(after.current_nodes.len() == after.current_nodes@.len());
    let at = i as usize;
    let v = ValueView::Integer(y);
    lemma_one_replacement(t, at, v);
    assert(integer_node(t, at as int) == Some((k, x)));
    assert(set_int(at, y) == seq![(at, v)]);
    lemma2_to64();
    let d = magnitude_of(x - goal);
    assert(descent_tried(h, from, t, at, k, goal, d));
    assert(tried(h, from, t, set_int(at, y)));
}

/// How many integers there are among the first choices.
pub open spec fn integers_before(t: Seq<NodeView>, i: int) -> nat
    decreases i,
{
    if i <= 0 {
        0
    } else {
        integers_before(t, i - 1) + if t[i - 1].kind is Integer && t[i - 1].value is Integer {
            1nat
        } else {
            0
        }
    }
}

/// An integer stands in the list of integers after those before it.
proof fn lemma_place_among_integers(t: Seq<NodeView>, i: int, n: int)
    requires
        0 <= i < n <= t.len(),
        t[i].kind is Integer,
        t[i].value is Integer,
    ensures
        integers_before(t, i) < entries_of(t.take(n)).len() == integers_before(t, n),
        entries_of(t.take(n))[integers_before(t, i) as int] == (
            i as usize,
            t[i].kind->Integer_0,
            t[i].value->Integer_0,
        ),
    decreases n,
{
    lemma_integers_are_listed(t, n);
    lemma_integers_are_listed(t, i);
    let s = t.take(n);
    assert(s.drop_last() =~= t.take(n - 1));
    assert(s.last() == t[n - 1]);
    if i < n - 1 {
        lemma_place_among_integers(t, i, n - 1);
    } else {
        lemma_integers_are_listed(t, n - 1);
    }
}

/// As many integers are listed as there are.
proof fn lemma_integers_are_listed(t: Seq<NodeView>, n: int)
    requires
        0 <= n <= t.len(),
    ensures
        entries_of(t.take(n)).len() == integers_before(t, n),
    decreases n,
{
    if n > 0 {
        lemma_integers_are_listed(t, n - 1);
        assert(t.take(n).drop_last() =~= t.take(n - 1));
        assert(t.take(n).last() == t[n - 1]);
    }
}

/// A target that a search settles for was tried with all that an integer has above the
/// value that it shrinks towards, or below it, moved to another one that follows it among
/// the next seven integers. It was tried with an integer and one of the next three both
/// one step further in the direction in which the first one shrinks.
pub proof fn lemma_settled_targets_were_redistributed<P: ShrinkProbe>(
    before: Shrinker<P>,
    after: Shrinker<P>,
    r: Result<(), RunError>,
    i: int,
    k: IntegerKind,
    x: int,
    goal: int,
    j: int,
    l: IntegerKind,
    y: int,
)
    requires
        exists|m: &mut Shrinker<P>| #[trigger]
            call_ensures(Shrinker::<P>::shrink, (m,), r) && *m == before && *final(m) == after,
        before.wf(),
        is_left_alone(before, after),
        r is Ok,
        0 <= i < j < after.target().len(),
        !after.target()[i].was_forced,
        after.target()[i].kind == KindView::Integer(k),
        after.target()[i].value == ValueView::Integer(x),
        !after.target()[j].was_forced,
        after.target()[j].kind == KindView::Integer(l),
        after.target()[j].value == ValueView::Integer(y),
        k.min <= k.max,
        goal == if k.towards < k.min {
            k.min
        } else if k.towards > k.max {
            k.max
        } else {
            k.towards
        },
        x != goal,
    ensures
        ({
            let t = after.target();
            let apart = integers_before(t, j) - integers_before(t, i);
            let step = if x > goal {
                -1int
            } else {
                1int
            };
            &&& apart <= 7 && l.min <= y + (x - goal) <= l.max ==> came_to_nothing(
                after,
                with_one(
                    with_one(t, i, ValueView::Integer(goal)),
                    j,
                    ValueView::Integer(y + (x - goal)),
                ),
            )
            &&& apart <= 3 && l.min <= y + step <= l.max && k.min <= x + step <= k.max
                ==> came_to_nothing(
                after,
                with_one(
                    with_one(t, i, ValueView::Integer(x + step)),
                    j,
                    ValueView::Integer(y + step),
                ),
            )
        }),
{
    let from = lemma_settled(before, after, r);
    let t = after.target();
    let n = t.len() as int;
    assert(after.current_nodes.len() == after.current_nodes@.len());
    assert(t.take(n) =~= t);
    lemma_place_among_integers(t, i, n);
    lemma_place_among_integers(t, j, n);
    lemma_place_among_integers(t, i, j);
    lemma_integers_are_listed(t, j);
    let e = entries_of(t);
    let p = integers_before(t, i) as int;
    let apart = integers_before(t, j) - integers_before(t, i);
    assert(e[p + apart] == (j as usize, l, y));
    let step = if x > goal {
        -1int
    } else {
        1int
    };
    lemma_two_replacements(
        t,
        i as usize,
        ValueView::Integer(goal),
        j as usize,
        ValueView::Integer(y + (x - goal)),
    );
    lemma_two_replacements(
        t,
        i as usize,
        ValueView::Integer(x + step),
        j as usize,
        ValueView::Integer(y + step),
    );
    if 1 <= apart < 8 {
        assert(moved_all(e, p, apart) =~= seq![
            (i as usize, ValueView::Integer(goal)),
            (j as usize, ValueView::Integer(y + (x - goal))),
        ]);
    }
    if 1 <= apart <= 3 {
        assert(both_nearer(e, p, apart) =~= seq![
            (i as usize, ValueView::Integer(x + step)),
            (j as usize, ValueView::Integer(y + step)),
        ]);
    }
}

/// Whether two choices are of the same sort and have the same value.
pub open spec fn are_alike(a: NodeView, b: NodeView) -> bool {
    &&& a.value == b.value
    &&& match (a.kind, b.kind) {
        (KindView::Boolean(_), KindView::Boolean(_)) => true,
        (KindView::Integer(_), KindView::Integer(_)) => true,
        (KindView::Float(_), KindView::Float(_)) => true,
        (KindView::Bytes(_), KindView::Bytes(_)) => true,
        (KindView::String(_), KindView::String(_)) => true,
        (KindView::Clone, KindView::Clone) => true,
        _ => false,
    }
}

/// The choices with another value wherever they are like one of them.
pub open spec fn with_all(t: Seq<NodeView>, i: int, n: int, v: ValueView) -> Seq<NodeView> {
    Seq::new(
        t.len(),
        |j: int|
            if j < n && are_alike(t[j], t[i]) {
                NodeView { value: v, ..t[j] }
            } else {
                t[j]
            },
    )
}

/// Replacing a group replaces all that are alike.
proof fn lemma_group_replacement(t: Seq<NodeView>, i: int, n: int, v: ValueView)
    requires
        0 <= i < t.len() <= usize::MAX,
        0 <= n <= t.len(),
    ensures
        applied(t, group_reps(group_upto(t, i, n), v)) == with_all(t, i, n, v),
        (forall|j: int|
            0 <= j < n && are_alike(#[trigger] t[j], t[i]) ==> !t[j].was_forced && value_fits(
                t[j].kind,
                v,
            )) ==> applicable(t, group_reps(group_upto(t, i, n), v)),
        forall|x: int|
            0 <= x < group_upto(t, i, n).len() ==> (#[trigger] group_upto(t, i, n)[x]) < n,
    decreases n,
{
    let g = group_upto(t, i, n);
    if n <= 0 {
        assert(group_reps(g, v) =~= Seq::empty());
        assert(with_all(t, i, n, v) =~= t);
    } else {
        let front = group_upto(t, i, n - 1);
        lemma_group_replacement(t, i, n - 1, v);
        assert(duplicates(t[n - 1], t[i]) == are_alike(t[n - 1], t[i]));
        if duplicates(t[n - 1], t[i]) {
            let reps = group_reps(g, v);
            assert(reps.drop_last() =~= group_reps(front, v));
            assert(reps.last() == ((n - 1) as usize, v));
            assert(applied(t, reps) =~= with_all(t, i, n, v));
            if forall|j: int|
                0 <= j < n && are_alike(#[trigger] t[j], t[i]) ==> !t[j].was_forced && value_fits(
                    t[j].kind,
                    v,
                ) {
                assert forall|x: int| 0 <= x < reps.len() implies {
                    &&& (#[trigger] reps[x]).0 < t.len()
                    &&& !t[reps[x].0 as int].was_forced
                    &&& value_fits(t[reps[x].0 as int].kind, reps[x].1)
                } by {
                    if x < reps.len() - 1 {
                        assert(reps[x] == group_reps(front, v)[x]);
                    }
                }
            }
        } else {
            assert(with_all(t, i, n, v) =~= with_all(t, i, n - 1, v));
        }
    }
}

/// Two that are alike make a group.
proof fn lemma_group_has_two(t: Seq<NodeView>, i: int, j: int, n: int)
    requires
        0 <= i < t.len(),
        0 <= n <= t.len(),
        i < j,
        j < t.len(),
        are_alike(t[j], t[i]),
    ensures
        group_upto(t, i, n).len() >= if n > j {
            2int
        } else if n > i {
            1
        } else {
            0
        },
    decreases n,
{
    if n > 0 {
        lemma_group_has_two(t, i, j, n - 1);
        assert(duplicates(t[n - 1], t[i]) == are_alike(t[n - 1], t[i]));
    }
}

/// A target that a search settles for was tried with all the choices that are alike made
/// simplest together, where there are two or more. Where these are positive integers, it
/// was tried with all of them one less, two less, and half as far from zero or from the
/// value that they shrink towards, whichever is larger, and likewise where they are
/// negative.
pub proof fn lemma_settled_targets_were_tried_in_groups<P: ShrinkProbe>(
    before: Shrinker<P>,
    after: Shrinker<P>,
    r: Result<(), RunError>,
    i: int,
    j: int,
    v: ValueView,
)
    requires
        exists|m: &mut Shrinker<P>| #[trigger]
            call_ensures(Shrinker::<P>::shrink, (m,), r) && *m == before && *final(m) == after,
        before.wf(),
        is_left_alone(before, after),
        r is Ok,
        0 <= i < j < after.target().len(),
        are_alike(after.target()[j], after.target()[i]),
        forall|x: int|
            0 <= x < i ==> !are_alike(#[trigger] after.target()[x], after.target()[i]),
        forall|x: int|
            0 <= x < after.target().len() && are_alike(
                #[trigger] after.target()[x],
                after.target()[i],
            ) ==> !after.target()[x].was_forced && value_fits(after.target()[x].kind, v),
        (simplest_of(after.target()[i].kind) == Some(v) && v != after.target()[i].value) || ({
            let t = after.target();
            &&& t[i].kind matches KindView::Integer(k)
            &&& t[i].value matches ValueView::Integer(x)
            &&& {
                let goal = if k.towards < k.min {
                    k.min
                } else if k.towards > k.max {
                    k.max
                } else {
                    k.towards
                };
                let low = if goal > 0 {
                    goal
                } else {
                    0
                };
                let high = if goal < 0 {
                    goal
                } else {
                    0
                };
                ||| x > low && (v == ValueView::Integer(x - 1) || v == ValueView::Integer(x - 2)
                    || v == ValueView::Integer(low + (x - low) / 2))
                ||| x < high && (v == ValueView::Integer(x + 1) || v == ValueView::Integer(x + 2)
                    || v == ValueView::Integer(high - (high - x) / 2))
            }
        }),
    ensures
        came_to_nothing(
            after,
            with_all(after.target(), i, after.target().len() as int, v),
        ),
{
    let from = lemma_settled(before, after, r);
    let t = after.target();
    let n = t.len() as int;
    assert(after.current_nodes.len() == after.current_nodes@.len());
    assert forall|x: int| 0 <= x < i implies !duplicates(#[trigger] t[x], t[i]) by {
        assert(duplicates(t[x], t[i]) == are_alike(t[x], t[i]));
    }
    assert(is_first(t, i));
    lemma_group_has_two(t, i, j, n);
    lemma_group_replacement(t, i, n, v);
    assert(group_shrunk(after.history@, from, t, i));
    lemma2_to64();
    let g = group_of(t, i);
    assert(tried(after.history@, from, t, group_reps(g, v))) by {
        if let ValueView::Integer(x) = v {
            assert(group_reps(g, v) == group_reps(g, ValueView::Integer(x)));
        }
    }
}

/// A target that a search settles for was tried with the distance of every integer from
/// the value that it shrinks towards cut down in other ways: without its topmost bit, to
/// its top eight bits and to its bottom eight bits.
pub proof fn lemma_settled_targets_lost_bits<P: ShrinkProbe>(
    before: Shrinker<P>,
    after: Shrinker<P>,
    r: Result<(), RunError>,
    i: int,
    k: IntegerKind,
    goal: int,
    x: int,
    bits: nat,
    d: int,
)
    requires
        exists|m: &mut Shrinker<P>| #[trigger]
            call_ensures(Shrinker::<P>::shrink, (m,), r) && *m == before && *final(m) == after,
        before.wf(),
        is_left_alone(before, after),
        r is Ok,
        0 <= i < after.target().len(),
        !after.target()[i].was_forced,
        after.target()[i].kind == KindView::Integer(k),
        after.target()[i].value == ValueView::Integer(x),
        k.min <= k.max,
        goal == if k.towards < k.min {
            k.min
        } else if k.towards > k.max {
            k.max
        } else {
            k.towards
        },
        1 < bits < usize::MAX,
        ({
            let m = magnitude_of(x - goal);
            &&& pow2((bits - 1) as nat) <= m < pow2(bits)
            &&& d == m as int % pow2((bits - 1) as nat) as int || (bits > 8 && (d == m as int
                / pow2((bits - 8) as nat) as int || d == m as int % 256))
        }),
        k.min <= goal + d <= k.max,
    ensures
        came_to_nothing(after, with_one(after.target(), i, ValueView::Integer(goal + d))),
{
    let from = lemma_settled(before, after, r);
    let t = after.target();
    let h = after.history@;
    assert(after.current_nodes.len() == after.current_nodes@.len());
    let at = i as usize;
    let m = magnitude_of(x - goal);
    lemma2_to64();
    lemma_pow2_pos((bits - 1) as nat);
    lemma_pow2_pos((bits - 8) as nat);
    lemma_bits_of(m, bits);
    assert(integer_node(t, at as int) == Some((k, x)));
    assert(distances_tried(h, from, t, at, k, goal, m));
    lemma_one_replacement(t, at, ValueView::Integer(goal + d));
    assert(set_int(at, goal + d) == seq![(at, ValueView::Integer(goal + d))]);
    assert(d >= 0) by {
        lemma_cut_is_natural(m as int, pow2((bits - 1) as nat) as int);
        lemma_cut_is_natural(m as int, pow2((bits - 8) as nat) as int);
    }
    assert(tried_at(h, from, t, at, k, goal, d as nat));
}

/// Quotients and remainders of naturals are natural.
proof fn lemma_cut_is_natural(m: int, p: int)
    requires
        m >= 0,
        p > 0,
    ensures
        m / p >= 0,
        m % p >= 0,
{
    assert(m / p >= 0) by (nonlinear_arith)
        requires
            m >= 0,
            p > 0,
    ;
}

/// How many bits a number between two powers of two has.
proof fn lemma_bits_of(m: nat, bits: nat)
    requires
        bits > 0,
        pow2((bits - 1) as nat) <= m < pow2(bits),
    ensures
        bit_length(m) == bits,
{
    lemma_bit_length(m);
    let n = bit_length(m);
    lemma_pow2_pos((bits - 1) as nat);
    if n < bits {
        if n < bits - 1 {
            lemma_pow2_strictly_increases(n, (bits - 1) as nat);
        }
    } else if n > bits {
        if n - 1 > bits {
            lemma_pow2_strictly_increases(bits, (n - 1) as nat);
        }
    }
}

/// A target that a search settles for was tried with a choice made simplest, or lowered by
/// one, together with one of the next three at the indices that are powers of two up to
/// a hundred and twenty-eight, and one less than these, as far as there are such, unless
/// raising the other choice by one, two or four left the target as simple as it is.
pub proof fn lemma_settled_targets_were_bumped<P: ShrinkProbe>(
    before: Shrinker<P>,
    after: Shrinker<P>,
    r: Result<(), RunError>,
    i: int,
    c: nat,
    lowered: nat,
    v: ValueView,
    j: int,
    d: nat,
    most: nat,
    e: nat,
    index: nat,
    w: ValueView,
)
    requires
        exists|m: &mut Shrinker<P>| #[trigger]
            call_ensures(Shrinker::<P>::shrink, (m,), r) && *m == before && *final(m) == after,
        before.wf(),
        is_left_alone(before, after),
        r is Ok,
        0 <= i < j < after.target().len(),
        j <= i + 3,
        !after.target()[i].was_forced,
        !after.target()[j].was_forced,
        after.target()[i].kind is Boolean || after.target()[i].kind is Integer,
        after.target()[j].kind is Boolean || after.target()[j].kind is Integer,
        index_of(after.target()[i].kind, after.target()[i].value) == Some(c),
        index_of(after.target()[j].kind, after.target()[j].value) == Some(d),
        c > 0,
        lowered == 0 || lowered == c - 1,
        value_at(after.target()[i].kind, lowered) == Some(v),
        max_index_of(after.target()[j].kind) == Some(most),
        e <= 7,
        pow2(e) <= most,
        index == pow2(e) || index == pow2(e) - 1,
        value_at(after.target()[j].kind, index) == Some(w),
        value_fits(after.target()[i].kind, v),
        value_fits(after.target()[j].kind, w),
    ensures
        ({
            let t = after.target();
            let lower = with_one(t, i, v);
            let same = exists|up: nat|
                (up == 1 || up == 2 || up == 4) && #[trigger] value_at(t[j].kind, d + up) is Some
                    && sort_key_of(with_one(lower, j, value_at(t[j].kind, d + up)->Some_0))
                    == sort_key_of(t);
            same || came_to_nothing(after, with_one(lower, j, w))
        }),
{
    let from = lemma_settled(before, after, r);
    let t = after.target();
    let h = after.history@;
    assert(after.current_nodes.len() == after.current_nodes@.len());
    let at = i as usize;
    let to = j as usize;
    assert(lowerings_tried(h, from, t, at, j - i));
    assert(index_at(t, at as int) == Some(c));
    assert(index_at(t, to as int) == Some(d));
    assert(is_lowering(t[at as int].kind, index_at(t, at as int)->Some_0, v));
    assert(lowering_tried(h, from, t, at, v, j - i));
    assert(bumps_tried(h, from, t, at, v, to));
    assert forall|x: ValueView| applied(t, #[trigger] pair_reps(at, v, to, x)) == with_one(
        with_one(t, i, v),
        j,
        x,
    ) && (applicable(t, pair_reps(at, v, to, x)) ==> value_fits(t[j].kind, x)) by {
        lemma_two_replacements(t, at, v, to, x);
        assert(pair_reps(at, v, to, x) == seq![(at, v), (to, x)]);
    }
    lemma_two_replacements(t, at, v, to, w);
    assert(pair_reps(at, v, to, w) == seq![(at, v), (to, w)]);
    if some_bump_same(t, at, v, to, d) {
        let up: nat = if bump_same(t, at, v, to, d + 1) {
            1
        } else if bump_same(t, at, v, to, d + 2) {
            2
        } else {
            4
        };
        let x = value_at(t[j].kind, d + up)->Some_0;
        assert(bump_same(t, at, v, to, d + up));
        assert(applied(t, pair_reps(at, v, to, x)) == with_one(with_one(t, i, v), j, x));
        assert(value_at(t[j].kind, d + up) is Some);
    } else {
        assert(absolute_bumps_tried(h, from, t, at, v, to, most));
        assert(bump_tried(h, from, t, at, v, to, index));
    }
}

/// The movers of two tracked positions.
proof fn lemma_two_movers(t: Seq<NodeView>, changed: Set<usize>, i: int, j: int, n: int)
    requires
        0 <= i < j < t.len() <= usize::MAX,
        0 <= n <= t.len(),
        forall|x: usize| #[trigger] changed.contains(x) <==> x == i || x == j,
        is_away(t[i]),
        is_away(t[j]),
    ensures
        ({
            let positions = changed_upto(changed, n);
            let movers = movers_of(t, positions);
            &&& n <= i ==> positions.len() == 0 && movers.len() == 0
            &&& i < n <= j ==> positions == seq![i as usize] && movers == seq![mover_at(t, i)]
            &&& n > j ==> positions == seq![i as usize, j as usize] && movers == seq![
                mover_at(t, i),
                mover_at(t, j),
            ]
        }),
    decreases n,
{
    if n > 0 {
        lemma_two_movers(t, changed, i, j, n - 1);
        let before = changed_upto(changed, n - 1);
        let positions = changed_upto(changed, n);
        let at = (n - 1) as usize;
        assert(changed.contains(at) <==> n - 1 == i || n - 1 == j);
        if n - 1 == i || n - 1 == j {
            assert(positions == before.push(at));
            assert(positions.drop_last() =~= before);
            assert(integer_node(t, at as int) is Some);
            assert(movers_of(t, positions) == movers_of(t, before).push(mover_at(t, n - 1)));
            if n - 1 == i {
                assert(before =~= Seq::empty());
                assert(movers_of(t, before) =~= Seq::empty());
                assert(positions =~= seq![i as usize]);
                assert(movers_of(t, positions) =~= seq![mover_at(t, i)]);
            } else {
                assert(positions =~= seq![i as usize, j as usize]);
                assert(movers_of(t, positions) =~= seq![mover_at(t, i), mover_at(t, j)]);
            }
        }
    }
}

/// The value that an integer shrinks towards.
pub open spec fn aim_of(k: IntegerKind) -> int {
    if k.towards < k.min {
        k.min
    } else if k.towards > k.max {
        k.max
    } else {
        k.towards
    }
}

/// Whether a choice is an integer that is not at the value that it shrinks towards.
pub open spec fn is_away(n: NodeView) -> bool {
    n.kind is Integer && n.value is Integer && n.value->Integer_0 != aim_of(n.kind->Integer_0)
}

/// A position, where its integer shrinks towards and what it is.
pub open spec fn mover_at(t: Seq<NodeView>, i: int) -> (usize, int, int) {
    (i as usize, aim_of(t[i].kind->Integer_0), t[i].value->Integer_0)
}

/// The integer one step nearer to the value that it shrinks towards.
pub open spec fn one_nearer(n: NodeView) -> int {
    if n.value->Integer_0 > aim_of(n.kind->Integer_0) {
        n.value->Integer_0 - 1
    } else {
        n.value->Integer_0 + 1
    }
}

/// Two integers that changed together are tried one step nearer to where they shrink
/// towards together, by the pass that is for it, where that leaves the target as it is.
pub proof fn lemma_changed_integers_are_lowered_together<P: ShrinkProbe>(
    before: Shrinker<P>,
    after: Shrinker<P>,
    r: Result<(), ShrinkHalt>,
    i: int,
    j: int,
)
    requires
        exists|m: &mut Shrinker<P>| #[trigger]
            call_ensures(Shrinker::<P>::lower_common_node_offset, (m,), r) && *m == before
                && *final(m) == after,
        before.wf(),
        r is Ok,
        after.improvements == before.improvements,
        0 <= i < j < before.target().len(),
        forall|x: usize| #[trigger] before.all_changed_nodes@.contains(x) <==> x == i || x == j,
        is_away(before.target()[i]),
        is_away(before.target()[j]),
        !before.target()[i].was_forced,
        !before.target()[j].was_forced,
        value_fits(
            before.target()[i].kind,
            ValueView::Integer(one_nearer(before.target()[i])),
        ),
        value_fits(
            before.target()[j].kind,
            ValueView::Integer(one_nearer(before.target()[j])),
        ),
    ensures
        exists|x: int|
            {
                let t = before.target();
                &&& before.history@.len() <= x < after.history@.len()
                &&& (#[trigger] after.history@[x]).target == t
                &&& after.history@[x].candidate == with_one(
                    with_one(t, i, ValueView::Integer(one_nearer(t[i]))),
                    j,
                    ValueView::Integer(one_nearer(t[j])),
                )
            },
{
    let t = before.target();
    let n = t.len() as int;
    assert(before.current_nodes.len() == before.current_nodes@.len());
    let changed = before.all_changed_nodes@;
    lemma_two_movers(t, changed, i, j, n);
    let movers = movers_of(t, changed_upto(changed, n));
    let reps = nearer_reps(movers, 1, false);
    let v = ValueView::Integer(one_nearer(t[i]));
    let w = ValueView::Integer(one_nearer(t[j]));
    assert(reps =~= seq![(i as usize, v), (j as usize, w)]);
    lemma_two_replacements(t, i as usize, v, j as usize, w);
    assert(offered(
        after.history@,
        before.history@.len(),
        t,
        with_one(with_one(t, i, v), j, w),
    ));
}

} // verus!
