//! Streams of choices: when they end, how spans nest in them, and what their clones
//! replay.
use super::lemma_one_choice_more;
use super::recorded_one;
use crate::bignum::BigInt;
use crate::choices::values_view;
use crate::choices::KindView;
use crate::choices::NodeView;
use crate::choices::Probability;
use crate::choices::ValueView;
use crate::draws::generate_boolean;
use crate::draws::generate_integer;
use crate::errors::EngineError;
use crate::errors::InterestingOrigin;
use crate::errors::Status;
use crate::family::FamilyCore;
use crate::sampling::Distributions;
use crate::sequence_sampling::index_at;
use crate::sequence_sampling::weight_below;
use crate::spans::Span;
use crate::test_case::DataObserver;
use crate::test_case::NativeTestCase;
use vstd::prelude::*;

verus! {

/// Nothing is drawn in a test case that has concluded: where it is invalid the request is
/// answered so, and else as one that ran out of data. The conclusion stands.
pub proof fn lemma_nothing_follows_a_conclusion<D: Distributions, O: DataObserver>(
    tc: NativeTestCase<D, O>,
    after: NativeTestCase<D, O>,
    family: FamilyCore,
    new_family: FamilyCore,
    min: &BigInt,
    max: &BigInt,
    r: Result<BigInt, EngineError>,
)
    requires
        exists|m: &mut NativeTestCase<D, O>, f: &mut FamilyCore| #[trigger]
            call_ensures(generate_integer::<D, O>, (m, f, min, max), r) && *m == tc && *final(m)
                == after && *f == family && *final(f) == new_family,
        family.conclusion is Some,
        tc.structure@.stack.len() < 1000,
        min@ <= max@,
    ensures
        r matches Err(e) && (e is InvalidTestCase <==> family.conclusion->Some_0.0 is Invalid) && (
        e is Overrun <==> !(family.conclusion->Some_0.0 is Invalid)),
        after.nodes@ == tc.nodes@,
        new_family == family,
{
}

/// A stream that is full, and a test case whose budget is spent, conclude that they ran
/// out of data when another choice is asked for, and the choice is not made. The budget
/// is spent by that.
pub proof fn lemma_streams_run_out<D: Distributions, O: DataObserver>(
    tc: NativeTestCase<D, O>,
    after: NativeTestCase<D, O>,
    family: FamilyCore,
    new_family: FamilyCore,
    p: Probability,
    written: &str,
    r: Result<bool, EngineError>,
)
    requires
        exists|m: &mut NativeTestCase<D, O>, f: &mut FamilyCore| #[trigger]
            call_ensures(generate_boolean::<D, O>, (m, f, p, written, None), r) && *m == tc
                && *final(m) == after && *f == family && *final(f) == new_family,
        family.conclusion is None,
        tc.structure@.stack.len() < 1000,
        p.numerator <= 0x20_0000_0000_0000,
        tc.nodes@.len() >= tc.max_size || family.total_draws >= family.budget,
    ensures
        r matches Err(e) && e is Overrun,
        new_family.conclusion == Some((Status::EarlyStop, None::<InterestingOrigin>)),
        after.nodes@ == tc.nodes@,
{
}

/// A span that would nest more than a thousand deep makes the test case invalid.
/// Otherwise it begins where the stream is, inside the one that is open, and nothing
/// else changes.
pub proof fn lemma_spans_open_where_the_stream_is<D: Distributions, O: DataObserver>(
    tc: NativeTestCase<D, O>,
    after: NativeTestCase<D, O>,
    family: FamilyCore,
    new_family: FamilyCore,
    label: u64,
    r: usize,
)
    requires
        exists|m: &mut NativeTestCase<D, O>, f: &mut FamilyCore| #[trigger]
            call_ensures(NativeTestCase::<D, O>::start_span, (m, f, label), r) && *m == tc
                && *final(m) == after && *f == family && *final(f) == new_family,
        tc.nodes@.len() <= usize::MAX,
        tc.structure@.spans.len() < usize::MAX,
        family.conclusion is None,
    ensures
        r == tc.structure@.spans.len(),
        tc.structure@.stack.len() < 1000 ==> {
            let span = after.structure@.spans[r as int];
            &&& after.structure@.spans == tc.structure@.spans.push(span)
            &&& span.start == tc.nodes@.len()
            &&& span.label == label
            &&& span.depth == tc.structure@.stack.len()
            &&& !span.discarded
            &&& tc.structure@.stack.len() == 0 ==> span.parent is None
            &&& tc.structure@.stack.len() > 0 ==> span.parent == Some(tc.structure@.stack.last())
            &&& after.structure@.stack == tc.structure@.stack.push(r)
            &&& after.nodes@ == tc.nodes@
            &&& new_family == family
        },
        tc.structure@.stack.len() >= 1000 ==> {
            &&& new_family.conclusion == Some((Status::Invalid, None::<InterestingOrigin>))
            &&& !tc.frozen ==> after.frozen && after.structure@.stack.len() == 0
        },
{
    assert(tc.structure.span_stack.len() == tc.structure.span_stack@.len());
}

/// A span that is closed ends where the stream is, and is marked where it is discarded.
/// It is the innermost one, and the others stay as they are.
pub proof fn lemma_spans_close_where_the_stream_is<D: Distributions, O: DataObserver>(
    tc: NativeTestCase<D, O>,
    after: NativeTestCase<D, O>,
    discard: bool,
    j: int,
)
    requires
        exists|m: &mut NativeTestCase<D, O>| #[trigger]
            call_ensures(NativeTestCase::<D, O>::stop_span, (m, discard), ()) && *m == tc
                && *final(m) == after,
        tc.nodes@.len() <= usize::MAX,
        tc.structure@.stack.len() > 0,
        tc.structure@.stack.last() < tc.structure@.spans.len(),
        0 <= j < tc.structure@.spans.len(),
    ensures
        after.structure@.stack == tc.structure@.stack.drop_last(),
        after.structure@.spans.len() == tc.structure@.spans.len(),
        j == tc.structure@.stack.last() ==> after.structure@.spans[j] == (Span {
            end: tc.nodes@.len() as usize,
            discarded: discard,
            ..tc.structure@.spans[j]
        }),
        j != tc.structure@.stack.last() ==> after.structure@.spans[j] == tc.structure@.spans[j],
        after.structure@.has_discards <==> tc.structure@.has_discards || discard,
        after.nodes@ == tc.nodes@,
{
}

/// A stream that is frozen has no open spans, and its test case has concluded. The
/// conclusion is the one that it had, or that it passed.
pub proof fn lemma_frozen_streams_have_ended<D: Distributions, O: DataObserver>(
    tc: NativeTestCase<D, O>,
    after: NativeTestCase<D, O>,
    family: FamilyCore,
    new_family: FamilyCore,
)
    requires
        exists|m: &mut NativeTestCase<D, O>, f: &mut FamilyCore| #[trigger]
            call_ensures(NativeTestCase::<D, O>::freeze, (m, f), ()) && *m == tc && *final(m)
                == after && *f == family && *final(f) == new_family,
    ensures
        tc.frozen ==> after == tc && new_family == family,
        !tc.frozen ==> {
            &&& after.frozen
            &&& after.structure@.stack.len() == 0
            &&& after.nodes@ == tc.nodes@
            &&& family.conclusion is Some ==> new_family == family
            &&& family.conclusion is None ==> new_family.conclusion == Some(
                (Status::Valid, None::<InterestingOrigin>),
            )
        },
{
}

/// The first conclusion stands.
pub proof fn lemma_first_conclusion_is_kept(
    before: FamilyCore,
    after: FamilyCore,
    status: Status,
    origin: Option<InterestingOrigin>,
)
    requires
        exists|m: &mut FamilyCore| #[trigger]
            call_ensures(FamilyCore::conclude, (m, status, origin), ()) && *m == before && *final(m)
                == after,
    ensures
        before.conclusion is Some ==> after == before,
        before.conclusion is None ==> after.conclusion == Some((status, origin)),
        after.total_draws == before.total_draws,
        after.budget == before.budget,
        after.fresh_ids == before.fresh_ids,
{
}

/// A clone is recorded as one choice, and replays what was recorded for it at its place:
/// where that was a clone, the values of that one, and nothing where it was another
/// choice or there was none. It has made no choices yet. Clones are not made too deep.
pub proof fn lemma_clones_replay_their_record<D: Distributions, O: DataObserver>(
    tc: NativeTestCase<D, O>,
    after: NativeTestCase<D, O>,
    family: FamilyCore,
    new_family: FamilyCore,
    nodes: Seq<NodeView>,
    spans: Seq<Span>,
    values: Seq<ValueView>,
    r: Result<usize, EngineError>,
)
    requires
        exists|m: &mut NativeTestCase<D, O>, f: &mut FamilyCore| #[trigger]
            call_ensures(NativeTestCase::<D, O>::clone_stream, (m, f), r) && *m == tc && *final(m)
                == after && *f == family && *final(f) == new_family,
        family.conclusion is None,
        family.total_draws < family.budget,
        tc.nodes@.len() < tc.max_size,
    ensures
        r is Ok <==> tc.clone_id@.len() < family.max_clone_depth,
        r is Err ==> r == Err::<usize, EngineError>(EngineError::InvalidTestCase)
            && new_family.conclusion == Some((Status::Invalid, None::<InterestingOrigin>)),
        r matches Ok(k) ==> {
            let child = after.clone_children@[k as int].1;
            &&& k == tc.clone_children@.len()
            &&& after.clone_children@.len() == k + 1
            &&& after.clone_children@[k as int].0 == tc.nodes@.len()
            &&& forall|j: int|
                0 <= j < k ==> #[trigger] after.clone_children@[j] == tc.clone_children@[j]
            &&& recorded_one(
                tc,
                after,
                NodeView {
                    kind: KindView::Clone,
                    value: ValueView::Stream(Seq::empty(), Seq::empty()),
                    was_forced: false,
                },
            )
            &&& new_family.total_draws == family.total_draws + 1
            &&& new_family.conclusion is None
            &&& child.nodes@.len() == 0
            &&& !child.frozen
            &&& child.clone_id@ == tc.clone_id@.push(tc.clone_counter)
            &&& child.source is Some <==> tc.source is Some
            &&& child.trailing_template is Some <==> tc.trailing_template is Some
            &&& tc.nodes@.len() >= tc.prefix@.len() ==> child.prefix@.len() == 0
            &&& tc.nodes@.len() < tc.prefix@.len() && tc.prefix@[tc.nodes@.len() as int]@
                == ValueView::Stream(nodes, spans) ==> {
                &&& child.prefix@.len() == nodes.len()
                &&& forall|j: int|
                    0 <= j < nodes.len() ==> (#[trigger] child.prefix@[j])@ == nodes[j].value
            }
            &&& tc.nodes@.len() < tc.prefix@.len() && tc.prefix@[tc.nodes@.len() as int]@
                == ValueView::Values(values) ==> {
                &&& child.prefix@.len() == values.len()
                &&& forall|j: int|
                    0 <= j < values.len() ==> (#[trigger] child.prefix@[j])@ == values[j]
            }
        },
{
    if r is Ok {
        lemma_one_choice_more(tc, after);
        let child = after.clone_children@[r->Ok_0 as int].1;
        assert(values_view(child.prefix@).len() == child.prefix@.len());
        assert forall|j: int| 0 <= j < child.prefix@.len() implies values_view(child.prefix@)[j]
            == (#[trigger] child.prefix@[j])@ by {}
    }
}

/// Tickets are shared out in the order of the indices: a later ticket falls on no earlier
/// index, and no index has more tickets than its weight says.
pub proof fn lemma_tickets_follow_the_weights(
    weights: &Vec<u32>,
    a: u64,
    b: u64,
    i: usize,
    j: usize,
)
    requires
        call_ensures(index_at, (weights, a), i),
        call_ensures(index_at, (weights, b), j),
        a <= b < weight_below(weights@, weights@.len() as int),
    ensures
        i <= j < weights@.len(),
        weights@[i as int] > 0,
        i == j ==> b - a < weights@[i as int],
{
    if j < i {
        lemma_weights_ascend(weights@, j + 1, i as int);
    }
}

/// No index has fewer tickets than its weight says: where the ticket before its first one
/// falls on another index, so many tickets later the index is still the same. The first
/// ticket of all falls on the first index that has a weight.
pub proof fn lemma_tickets_use_up_the_weights(
    weights: &Vec<u32>,
    first: u64,
    last: u64,
    i: usize,
    j: usize,
    k: usize,
)
    requires
        first > 0 ==> call_ensures(index_at, (weights, (first - 1) as u64), i),
        call_ensures(index_at, (weights, first), j),
        call_ensures(index_at, (weights, last), k),
        first == 0 || i != j,
        last == first + weights@[j as int] - 1,
        last < weight_below(weights@, weights@.len() as int),
    ensures
        k == j,
        first == 0 ==> forall|x: int| 0 <= x < j ==> #[trigger] weights@[x] == 0,
{
    if first == 0 {
        assert forall|x: int| 0 <= x < j implies #[trigger] weights@[x] == 0 by {
            lemma_weights_ascend(weights@, x + 1, j as int);
            lemma_weights_ascend(weights@, 0, x);
        }
        lemma_weights_ascend(weights@, 0, j as int);
    } else if i < j {
        lemma_weights_ascend(weights@, i + 1, j as int);
    } else {
        lemma_weights_ascend(weights@, j + 1, i as int);
    }
    if k < j {
        lemma_weights_ascend(weights@, k + 1, j as int);
    }
    if j < k {
        lemma_weights_ascend(weights@, j + 1, k as int);
    }
}

/// Sums of weights only grow.
proof fn lemma_weights_ascend(weights: Seq<u32>, a: int, b: int)
    requires
        0 <= a <= b,
    ensures
        0 <= weight_below(weights, a) <= weight_below(weights, b),
    decreases b,
{
    if b > 0 {
        if a < b {
            lemma_weights_ascend(weights, a, b - 1);
        } else {
            lemma_weights_ascend(weights, a - 1, b - 1);
        }
    }
}

} // verus!
