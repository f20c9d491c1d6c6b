//! Replaying: what stands in for a value that cannot be replayed, and what a finished
//! stream is recorded as.
use super::choices::nearest_in;
use super::has_room_for;
use super::lemma_one_choice_more;
use super::recorded_one;
use super::replays;
use crate::bignum::BigInt;
use crate::choices::nodes_view;
use crate::choices::simplest_of;
use crate::choices::values_view;
use crate::choices::ChoiceNode;
use crate::choices::ChoiceValue;
use crate::choices::IntegerKind;
use crate::choices::KindView;
use crate::choices::NodeView;
use crate::choices::ValueView;
use crate::draws::generate_integer;
use crate::errors::EngineError;
use crate::errors::InterestingOrigin;
use crate::errors::InternalError;
use crate::errors::Status;
use crate::family::FamilyCore;
use crate::sampling::Distributions;
use crate::test_case::clone_at;
use crate::test_case::whole_choices;
use crate::test_case::DataObserver;
use crate::test_case::NativeTestCase;
use vstd::prelude::*;

verus! {

/// A value that does not fit is replayed as the simplest one where it was the simplest of
/// what it was recorded as, and else as the simplest but one.
pub proof fn lemma_simplest_values_stay_simplest<D: Distributions, O: DataObserver>(
    tc: NativeTestCase<D, O>,
    family: FamilyCore,
    min: &BigInt,
    max: &BigInt,
    v: ValueView,
    node: NodeView,
    r: Result<BigInt, EngineError>,
)
    requires
        exists|m: &mut NativeTestCase<D, O>, f: &mut FamilyCore| #[trigger]
            call_ensures(generate_integer::<D, O>, (m, f, min, max), r) && *m == tc && *f == family,
        has_room_for(tc, family, 1),
        min@ <= max@,
        replays(tc, 0, v),
        !(v is Integer) || !(min@ <= v->Integer_0 <= max@),
        tc.prefix_nodes is Some,
        tc.nodes@.len() < tc.prefix_nodes->Some_0@.len(),
        tc.prefix_nodes->Some_0@[tc.nodes@.len() as int]@ == node,
        simplest_of(node.kind) is Some,
    ensures
        r is Ok,
        simplest_of(node.kind) == Some(v) ==> r->Ok_0@ == nearest_in(0, min@, max@),
        simplest_of(node.kind) != Some(v) && min@ < max@ ==> r->Ok_0@ != nearest_in(
            0,
            min@,
            max@,
        ) && forall|w: int|
            min@ <= w <= max@ && w != nearest_in(0, min@, max@) ==> {
                let d = r->Ok_0@ - nearest_in(0, min@, max@);
                let e = #[trigger] (w - nearest_in(0, min@, max@));
                (if d < 0 {
                    -d
                } else {
                    d
                }) <= (if e < 0 {
                    -e
                } else {
                    e
                })
            },
{
}

/// Past the values that are replayed a stream answers so many requests with the simplest
/// value as it was made for, and then has run out.
pub proof fn lemma_templates_run_out<D: Distributions, O: DataObserver>(
    tc: NativeTestCase<D, O>,
    after: NativeTestCase<D, O>,
    family: FamilyCore,
    new_family: FamilyCore,
    min: &BigInt,
    max: &BigInt,
    count: usize,
    r: Result<BigInt, EngineError>,
)
    requires
        exists|m: &mut NativeTestCase<D, O>, f: &mut FamilyCore| #[trigger]
            call_ensures(generate_integer::<D, O>, (m, f, min, max), r) && *m == tc && *final(m)
                == after && *f == family && *final(f) == new_family,
        has_room_for(tc, family, 1),
        min@ <= max@,
        tc.nodes@.len() >= tc.prefix@.len(),
        tc.trailing_template is Some,
        tc.trailing_template->Some_0.count == Some(count),
    ensures
        count == 0 ==> {
            &&& r matches Err(e) && e is Overrun
            &&& new_family.conclusion == Some((Status::EarlyStop, None::<InterestingOrigin>))
            &&& after.nodes@ == tc.nodes@
        },
        count > 0 ==> {
            &&& r is Ok
            &&& r->Ok_0@ == nearest_in(0, min@, max@)
            &&& after.trailing_template is Some
            &&& after.trailing_template->Some_0.count == Some((count - 1) as usize)
            &&& new_family.conclusion is None
        },
{
}

/// A choice that has to be what it is is recorded as such, in its range. One outside its
/// range is refused, and nothing is recorded.
pub proof fn lemma_forced_integers_are_recorded<D: Distributions, O: DataObserver>(
    tc: NativeTestCase<D, O>,
    after: NativeTestCase<D, O>,
    family: FamilyCore,
    new_family: FamilyCore,
    min: BigInt,
    max: BigInt,
    forced: BigInt,
    r: Result<(), EngineError>,
)
    requires
        exists|m: &mut NativeTestCase<D, O>, f: &mut FamilyCore| #[trigger]
            call_ensures(
                NativeTestCase::<D, O>::draw_integer_forced,
                (m, f, min, max, forced),
                r,
            ) && *m == tc && *final(m) == after && *f == family && *final(f) == new_family,
        has_room_for(tc, family, 1),
    ensures
        min@ <= forced@ <= max@ ==> r is Ok && recorded_one(
            tc,
            after,
            NodeView {
                kind: KindView::Integer(IntegerKind { min: min@, max: max@, towards: 0 }),
                value: ValueView::Integer(forced@),
                was_forced: true,
            },
        ) && new_family.total_draws == family.total_draws + 1,
        !(min@ <= forced@ <= max@) ==> r is Err && after == tc && new_family == family,
{
    if min@ <= forced@ <= max@ {
        lemma_one_choice_more(tc, after);
    }
}

/// A test case that replays choices has made none yet, has all of them to replay, and
/// room for as many. It draws nothing past them.
pub proof fn lemma_replays_begin_with_their_choices<D: Distributions, O: DataObserver>(
    choices: &[ChoiceValue],
    nodes: Option<&[ChoiceNode]>,
    observer: Option<O>,
    depth: usize,
    i: int,
    r: (NativeTestCase<D, O>, FamilyCore),
)
    requires
        call_ensures(
            NativeTestCase::<D, O>::for_choices,
            (choices, nodes, observer, depth),
            r,
        ),
    ensures
        r.0.prefix@.len() == choices@.len(),
        0 <= i < choices@.len() ==> r.0.prefix@[i]@ == choices@[i]@,
        r.0.nodes@.len() == 0,
        r.0.max_size == choices@.len(),
        r.0.source is None,
        r.0.trailing_template is None,
        !r.0.frozen,
        r.0.structure@.stack.len() == 0,
        r.1.conclusion is None,
        r.1.total_draws == 0,
        r.1.budget == usize::MAX,
        r.1.max_clone_depth == depth,
{
    assert(values_view(r.0.prefix@).len() == r.0.prefix@.len());
    assert(values_view(choices@).len() == choices@.len());
    if 0 <= i < choices@.len() {
        assert(values_view(r.0.prefix@)[i] == r.0.prefix@[i]@);
        assert(values_view(choices@)[i] == choices@[i]@);
    }
}

/// The simplest test case replays nothing, and makes every choice as simple as possible,
/// as many as it may make.
pub proof fn lemma_simplest_test_cases<D: Distributions, O: DataObserver>(
    max_size: usize,
    observer: Option<O>,
    depth: usize,
    r: Result<(NativeTestCase<D, O>, FamilyCore), InternalError>,
)
    requires
        call_ensures(NativeTestCase::<D, O>::for_simplest, (max_size, observer, depth), r),
    ensures
        r is Ok,
        r->Ok_0.0.prefix@.len() == 0,
        r->Ok_0.0.nodes@.len() == 0,
        r->Ok_0.0.trailing_template is Some && r->Ok_0.0.trailing_template->Some_0.count is None,
        r->Ok_0.0.max_size == max_size,
        r->Ok_0.1.budget == max_size,
        r->Ok_0.1.total_draws == 0,
        r->Ok_0.1.conclusion is None,
{
}

/// Once a test case has concluded, the choice that stands for a clone holds the record of
/// the clone: its choices and its spans. The other choices stay as they are. Before that
/// nothing is changed.
pub proof fn lemma_clones_are_taken_back<D: Distributions, O: DataObserver>(
    tc: NativeTestCase<D, O>,
    after: NativeTestCase<D, O>,
    family: FamilyCore,
    new_family: FamilyCore,
    i: int,
    j: int,
)
    requires
        exists|m: &mut NativeTestCase<D, O>, f: &mut FamilyCore| #[trigger]
            call_ensures(NativeTestCase::<D, O>::reassemble, (m, f), ()) && *m == tc && *final(m)
                == after && *f == family && *final(f) == new_family,
        tc.clone_children@.len() == 1,
        tc.clone_children@[0].0 == i,
        tc.clone_children@[0].1.clone_children@.len() == 0,
        0 <= i < tc.nodes@.len(),
        0 <= j < tc.nodes@.len(),
    ensures
        new_family == family,
        family.conclusion is None ==> after == tc,
        family.conclusion is Some ==> {
            let child = tc.clone_children@[0].1;
            &&& after.clone_children@.len() == 0
            &&& after.nodes@.len() == tc.nodes@.len()
            &&& after.nodes@[i]@.kind is Clone
            &&& after.nodes@[i]@.value is Stream
            &&& after.nodes@[i]@.value->Stream_0 == nodes_view(child.nodes@)
            &&& child.frozen ==> after.nodes@[i]@.value->Stream_1 == child.structure@.spans
            &&& j != i ==> after.nodes@[j]@ == tc.nodes@[j]@
        },
{
    if family.conclusion is Some {
        let child = tc.clone_children@[0].1;
        assert(after.choices().len() == after.nodes@.len());
        assert(after.choices()[i] == after.nodes@[i]@);
        assert(after.choices()[j] == after.nodes@[j]@);
        let none = tc.clone_children@.drop_last();
        assert(none =~= Seq::empty());
        reveal_with_fuel(clone_at, 2);
        assert(clone_at(none, i) == -1);
        assert(clone_at(none, j) == -1);
        assert(clone_at(tc.clone_children@, i) == 0);
        assert(j != i ==> clone_at(tc.clone_children@, j) == -1);
        assert forall|x: int| 0 <= x < child.nodes@.len() implies whole_choices(child)[x]
            == #[trigger] nodes_view(child.nodes@)[x] by {
            assert(clone_at(child.clone_children@, x) == -1);
        }
        assert(whole_choices(child) =~= nodes_view(child.nodes@));
    }
}

} // verus!
