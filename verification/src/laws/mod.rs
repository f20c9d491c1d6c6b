//! What the operations of the library are for: laws that relate what goes into an
//! operation to what comes out of it.
//!
//! A law speaks of the operation itself. That a state and a result came of a call is
//! said by the call, so that the law holds of whatever the operation does.
pub mod alphabets;
pub mod answers;
pub mod arguments;
pub mod callers;
pub mod choices;
pub mod collections;
pub mod draws;
pub mod floats;
pub mod handles;
pub mod machines;
pub mod numbers;
pub mod printing;
pub mod recursion;
pub mod replaying;
pub mod reports;
pub mod runs;
pub mod sampling;
pub mod searching;
pub mod settings;
pub mod shrinking;
pub mod special;
pub mod streams;
pub mod texts;

use crate::choices::NodeView;
use crate::choices::ValueView;
use crate::family::FamilyCore;
use crate::sampling::Distributions;
use crate::test_case::DataObserver;
use crate::test_case::NativeTestCase;
use vstd::prelude::*;

verus! {

/// Whether a test case can make `n` more choices in spans of their own: it has not
/// concluded, neither the stream nor the budget is full, and the spans do not nest
/// too deeply.
pub open spec fn has_room_for<D: Distributions, O: DataObserver>(
    tc: NativeTestCase<D, O>,
    family: FamilyCore,
    n: int,
) -> bool {
    &&& family.conclusion is None
    &&& family.total_draws + n <= family.budget
    &&& tc.nodes@.len() + n <= tc.max_size
    &&& tc.structure@.stack.len() < 1000
}

/// Whether the value `k` places after the next one that a test case replays is `v`.
pub open spec fn replays<D: Distributions, O: DataObserver>(
    tc: NativeTestCase<D, O>,
    k: int,
    v: ValueView,
) -> bool {
    tc.nodes@.len() + k < tc.prefix@.len() && tc.prefix@[tc.nodes@.len() + k]@ == v
}

/// Whether a test case has nothing left to replay and draws at random.
pub open spec fn is_random<D: Distributions, O: DataObserver>(tc: NativeTestCase<D, O>) -> bool {
    &&& tc.nodes@.len() >= tc.prefix@.len()
    &&& tc.trailing_template is None
    &&& tc.source is Some
}

/// The numbers that the random source of a test case has handed out.
pub open spec fn entropy<D: Distributions, O: DataObserver>(tc: NativeTestCase<D, O>) -> Seq<int> {
    tc.source->Some_0.rng.handed()
}

/// Whether a test case has nothing left to replay and makes every choice as simple as
/// possible.
pub open spec fn is_simplest<D: Distributions, O: DataObserver>(
    tc: NativeTestCase<D, O>,
) -> bool {
    &&& tc.nodes@.len() >= tc.prefix@.len()
    &&& tc.trailing_template matches Some(t) && t.count is None
}

/// Whether a test case holds one choice more.
pub open spec fn recorded_one<D: Distributions, O: DataObserver>(
    tc: NativeTestCase<D, O>,
    after: NativeTestCase<D, O>,
    node: NodeView,
) -> bool {
    &&& after.nodes@.len() == tc.nodes@.len() + 1
    &&& after.nodes@[tc.nodes@.len() as int]@ == node
    &&& forall|i: int| 0 <= i < tc.nodes@.len() ==> (#[trigger] after.nodes@[i])@ == tc.nodes@[i]@
}

/// Where the choices are those from before and one more, so are the nodes.
pub(crate) proof fn lemma_one_choice_more<D: Distributions, O: DataObserver>(
    tc: NativeTestCase<D, O>,
    after: NativeTestCase<D, O>,
)
    requires
        exists|node: NodeView| after.choices() == #[trigger] tc.choices().push(node),
    ensures
        recorded_one(tc, after, after.choices().last()),
{
    let node = choose|node: NodeView| after.choices() == #[trigger] tc.choices().push(node);
    assert(after.choices().len() == after.nodes@.len());
    assert(tc.choices().len() == tc.nodes@.len());
    assert(after.choices()[tc.nodes@.len() as int] == after.nodes@[tc.nodes@.len() as int]@);
    assert forall|i: int| 0 <= i < tc.nodes@.len() implies (#[trigger] after.nodes@[i])@
        == tc.nodes@[i]@ by {
        assert(after.choices()[i] == tc.choices()[i]);
        assert(tc.choices()[i] == tc.nodes@[i]@);
        assert(after.choices()[i] == after.nodes@[i]@);
    }
}

} // verus!
