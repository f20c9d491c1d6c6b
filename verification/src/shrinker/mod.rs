//! Shrinking: the search for a simpler choice sequence that still fails.
//!
//! The [`Shrinker`] holds the simplest failing sequence found so far, its
//! target. Passes offer it candidates through [`Shrinker::consider`]; a
//! candidate that fails the test and is simpler becomes the new target.
pub mod duplicates;
pub mod index_passes;
pub mod integers;
pub mod offsets;
pub mod report;
pub mod schedule;
pub mod search;
pub mod shortening;

use self::search::DownPhase;
use self::search::DownView;
use self::search::FindInteger;
use crate::bignum::Comparison;
use crate::choices::copy_nodes;
use crate::choices::is_same_sort;
use crate::choices::node_values;
use crate::choices::node_with;
use crate::choices::nodes_view;
use crate::choices::same_sort;
use crate::choices::simplest_of;
use crate::choices::value_fits;
use crate::choices::values_of;
use crate::choices::values_view;
use crate::choices::ChoiceNode;
use crate::choices::ChoiceValue;
use crate::choices::NodeView;
use crate::choices::ValueView;
use crate::clock::wall_clock;
use crate::errors::InternalError;
use crate::errors::RunError;
use crate::order::compare_keys;
use crate::order::lemma_key_irreflexive;
use crate::order::lemma_key_total;
use crate::order::lemma_key_transitive;
use crate::order::lemma_simpler_is_no_longer;
use crate::order::simpler;
use crate::order::sort_key;
use crate::order::sort_key_of;
use crate::spans::Span;
use crate::spans::Spans;
use std::collections::HashSet;
use vstd::prelude::*;

verus! {

broadcast use vstd::std_specs::hash::group_hash_axioms;

/// The default bound on improvements, and on calls without one.
pub const MAX_SHRINKS: usize = 500;

/// A request to run the test.
pub enum ShrinkRun<'a> {
    /// Replay a whole choice sequence.
    Full(&'a [ChoiceNode]),
    /// Replay values, then draw at random up to `max_size` choices.
    Probe { prefix: &'a [ChoiceValue], max_size: usize },
}

/// The lines of the debug output.
pub open spec fn lines_view(lines: Seq<String>) -> Seq<Seq<char>> {
    lines.map_values(|l: String| l@)
}

/// The lines of the debug output, where it is wanted.
pub open spec fn debug_view(debug: Option<Vec<String>>) -> Option<Seq<Seq<char>>> {
    match debug {
        Some(lines) => Some(lines_view(lines@)),
        None => None,
    }
}

/// The view of a request.
pub enum RunView {
    Full(Seq<NodeView>),
    Probe(Seq<ValueView>, usize),
}

/// What a run of the test came to: whether it failed, the choices that it made
/// and its spans.
pub struct Answer {
    pub failed: bool,
    pub nodes: Seq<NodeView>,
    pub spans: Seq<Span>,
}

/// One run of the test: what was asked for, whether its outcome may become the
/// target, and what came of it: an answer, or the end of the search as the probe
/// has it.
pub struct Run {
    pub request: RunView,
    pub considered: bool,
    pub answer: Option<Answer>,
    pub halt: Option<ShrinkHalt>,
}

/// The view of what the probe returned.
pub open spec fn answer_view(
    r: Result<(bool, Vec<ChoiceNode>, Spans), ShrinkHalt>,
) -> Option<Answer> {
    match r {
        Ok((failed, nodes, spans)) => Some(
            Answer { failed, nodes: nodes_view(nodes@), spans: spans@ },
        ),
        Err(_) => None,
    }
}

/// What a run that was asked for as `request` and came to `r` is recorded as, before
/// anything is made of its outcome.
pub open spec fn run_of(
    request: RunView,
    r: Result<(bool, Vec<ChoiceNode>, Spans), ShrinkHalt>,
) -> Run {
    Run { request, considered: false, answer: answer_view(r), halt: r.err() }
}

/// Whether a run replaces the target: it failed with simpler choices.
pub open spec fn adopts(target: Seq<NodeView>, run: Run) -> bool {
    &&& run.considered
    &&& run.answer matches Some(a)
    &&& a.failed
    &&& simpler(a.nodes, target)
}

/// What a search keeps of the runs: the simplest failing choices, their spans,
/// and how often they were replaced.
pub struct Kept {
    pub target: Seq<NodeView>,
    pub spans: Seq<Span>,
    pub improvements: int,
}

/// What is kept after some runs.
pub open spec fn kept_after(k: Kept, runs: Seq<Run>) -> Kept
    decreases runs.len(),
{
    if runs.len() == 0 {
        k
    } else {
        let before = kept_after(k, runs.drop_last());
        if adopts(before.target, runs.last()) {
            let a = runs.last().answer->Some_0;
            Kept { target: a.nodes, spans: a.spans, improvements: before.improvements + 1 }
        } else {
            before
        }
    }
}

/// The tracked positions after some runs, where changes are tracked against
/// `checkpoint`.
pub open spec fn tracked_after(
    checkpoint: Seq<NodeView>,
    k: Kept,
    watched: Set<usize>,
    runs: Seq<Run>,
) -> Set<usize>
    decreases runs.len(),
{
    if runs.len() == 0 {
        watched
    } else {
        let before = tracked_after(checkpoint, k, watched, runs.drop_last());
        if adopts(kept_after(k, runs.drop_last()).target, runs.last()) {
            tracked_changes(checkpoint, runs.last().answer->Some_0.nodes, before)
        } else {
            before
        }
    }
}

/// The positions tracked after some runs and then some more.
proof fn lemma_tracked_after_more(
    checkpoint: Seq<NodeView>,
    k: Kept,
    watched: Set<usize>,
    first: Seq<Run>,
    second: Seq<Run>,
)
    ensures
        tracked_after(checkpoint, k, watched, first + second) == tracked_after(
            checkpoint,
            kept_after(k, first),
            tracked_after(checkpoint, k, watched, first),
            second,
        ),
    decreases second.len(),
{
    if second.len() == 0 {
        assert(first + second =~= first);
    } else {
        assert((first + second).drop_last() =~= first + second.drop_last());
        lemma_tracked_after_more(checkpoint, k, watched, first, second.drop_last());
        lemma_kept_after_more(k, first, second.drop_last());
    }
}

/// The positions tracked after one run.
proof fn lemma_tracked_after_one(
    checkpoint: Seq<NodeView>,
    k: Kept,
    watched: Set<usize>,
    run: Run,
)
    ensures
        tracked_after(checkpoint, k, watched, seq![run]) == if adopts(k.target, run) {
            tracked_changes(checkpoint, run.answer->Some_0.nodes, watched)
        } else {
            watched
        },
{
    reveal_with_fuel(tracked_after, 2);
    assert(seq![run].drop_last() =~= Seq::<Run>::empty());
}

/// The values of the targets that some runs have replaced, the first one first.
pub open spec fn replaced_by(k: Kept, runs: Seq<Run>) -> Seq<Seq<ValueView>>
    decreases runs.len(),
{
    if runs.len() == 0 {
        Seq::empty()
    } else {
        let before = replaced_by(k, runs.drop_last());
        let target = kept_after(k, runs.drop_last()).target;
        if adopts(target, runs.last()) {
            before.push(node_values(target))
        } else {
            before
        }
    }
}

/// The targets that some runs and then some more have replaced.
proof fn lemma_replaced_by_more(k: Kept, first: Seq<Run>, second: Seq<Run>)
    ensures
        replaced_by(k, first + second) =~= replaced_by(k, first) + replaced_by(
            kept_after(k, first),
            second,
        ),
    decreases second.len(),
{
    if second.len() == 0 {
        assert(first + second =~= first);
    } else {
        assert((first + second).drop_last() =~= first + second.drop_last());
        lemma_replaced_by_more(k, first, second.drop_last());
        lemma_kept_after_more(k, first, second.drop_last());
    }
}

/// The targets that one run has replaced.
proof fn lemma_replaced_by_one(k: Kept, run: Run)
    ensures
        replaced_by(k, seq![run]) =~= if adopts(k.target, run) {
            seq![node_values(k.target)]
        } else {
            Seq::empty()
        },
{
    reveal_with_fuel(replaced_by, 2);
    assert(seq![run].drop_last() =~= Seq::<Run>::empty());
}

/// The values that were replaced.
pub open spec fn downgrades_view(downgraded: Seq<Vec<ChoiceValue>>) -> Seq<Seq<ValueView>> {
    downgraded.map_values(|v: Vec<ChoiceValue>| values_view(v@))
}

/// What is kept after some runs and then some more.
proof fn lemma_kept_after_more(k: Kept, first: Seq<Run>, second: Seq<Run>)
    ensures
        kept_after(k, first + second) == kept_after(kept_after(k, first), second),
    decreases second.len(),
{
    if second.len() == 0 {
        assert(first + second =~= first);
    } else {
        assert((first + second).drop_last() =~= first + second.drop_last());
        lemma_kept_after_more(k, first, second.drop_last());
    }
}

/// What is kept after one run.
proof fn lemma_kept_after_one(k: Kept, run: Run)
    ensures
        kept_after(k, seq![run]) == if adopts(k.target, run) {
            let a = run.answer->Some_0;
            Kept { target: a.nodes, spans: a.spans, improvements: k.improvements + 1 }
        } else {
            k
        },
{
    reveal_with_fuel(kept_after, 2);
    assert(seq![run].drop_last() =~= Seq::<Run>::empty());
}

/// What is kept is what was kept before, or comes of a run that failed.
pub proof fn lemma_what_is_kept_failed(k: Kept, runs: Seq<Run>)
    ensures
        kept_after(k, runs).improvements >= k.improvements,
        kept_after(k, runs).improvements == k.improvements ==> kept_after(k, runs) == k,
        kept_after(k, runs).improvements > k.improvements ==> exists|t: int|
            0 <= t < runs.len() && (#[trigger] runs[t]).considered && runs[t].answer == Some(
                Answer {
                    failed: true,
                    nodes: kept_after(k, runs).target,
                    spans: kept_after(k, runs).spans,
                },
            ),
    decreases runs.len(),
{
    if runs.len() > 0 {
        let front = runs.drop_last();
        lemma_what_is_kept_failed(k, front);
        let before = kept_after(k, front);
        if adopts(before.target, runs.last()) {
            assert(runs[runs.len() - 1] == runs.last());
        } else if before.improvements > k.improvements {
            let t = choose|t: int|
                0 <= t < front.len() && (#[trigger] front[t]).considered && front[t].answer == Some(
                    Answer { failed: true, nodes: before.target, spans: before.spans },
                );
            assert(runs[t] == front[t]);
        }
    }
}

/// Whether some choice has no simplest value.
pub open spec fn lacks_simplest(target: Seq<NodeView>) -> bool {
    exists|i: int| 0 <= i < target.len() && simplest_of((#[trigger] target[i]).kind) is None
}

/// Whether the clock showed a time at or past the deadline.
pub open spec fn shows_past(reading: Option<u128>, deadline: u128) -> bool {
    reading matches Some(now) && deadline <= now
}

/// Whether every reading of the clock from `from` on was past the deadline.
pub open spec fn all_past(readings: Seq<Option<u128>>, from: int, deadline: u128) -> bool {
    forall|t: int|
        from <= t < readings.len() ==> shows_past(#[trigger] readings[t], deadline)
}

/// Whether some reading of the clock from `from` on was past the deadline.
pub open spec fn some_past(readings: Seq<Option<u128>>, from: int, deadline: u128) -> bool {
    exists|t: int| from <= t < readings.len() && shows_past(#[trigger] readings[t], deadline)
}

/// Whether the probe has ended the search in one of the runs from `from` on.
pub open spec fn ended_since(runs: Seq<Run>, from: int) -> bool {
    exists|t: int| from <= t < runs.len() && (#[trigger] runs[t]).halt is Some
}

/// Runs one test case for the shrinker.
///
/// The answer is whether the case still fails, the choices that it made and
/// its spans. The choices may be fewer than were asked for, or others, where
/// the test took another path.
pub trait ShrinkProbe: Sized {
    /// Whether a run may have come to what it came to, and have left the probe in
    /// the state `after`, where it was in the state `before`. Anything may come of a
    /// run, unless an implementation says more.
    open spec fn may_answer(before: Self, after: Self, run: Run) -> bool {
        true
    }

    /// Runs the test.
    fn run(&mut self, req: ShrinkRun<'_>) -> (r: Result<
        (bool, Vec<ChoiceNode>, Spans),
        ShrinkHalt,
    >)
        ensures
            Self::may_answer(*old(self), *final(self), run_of(run_view(req), r)),
    ;
}

/// Why a shrink ended early.
#[derive(Debug)]
pub enum ShrinkHalt {
    /// The deadline has passed, or enough improvements were made.
    Stop,
    /// The run as a whole has failed.
    Error(RunError),
}

impl ShrinkHalt {
    /// The halt for a violated invariant.
    pub fn internal(e: InternalError) -> (r: Self)
        ensures
            r == ShrinkHalt::Error(RunError::Internal(e)),
    {
        ShrinkHalt::Error(RunError::Internal(e))
    }
}

/// How the outcome of a pass on one node ends the search, if it does.
pub open spec fn halt_of<T>(r: Result<T, PassExit>) -> Option<ShrinkHalt> {
    match r {
        Err(PassExit::Halt(halt)) => Some(halt),
        _ => None,
    }
}

/// Why a pass ended its work on one node.
#[derive(Debug)]
pub enum PassExit {
    /// The whole shrink ends.
    Halt(ShrinkHalt),
    /// The node is no longer of the kind that the pass works on.
    NodeGone,
}

/// Takes the outcome of a pass on one node: only a halt goes on.
pub fn absorb_node_gone<T>(result: Result<T, PassExit>) -> (r: Result<(), ShrinkHalt>)
    ensures
        r == match result {
            Err(PassExit::Halt(halt)) => Err(halt),
            _ => Ok(()),
        },
{
    match result {
        Err(PassExit::Halt(halt)) => Err(halt),
        _ => Ok(()),
    }
}

/// Takes the outcome of a whole shrink: only an error goes on.
pub fn absorb_stop<T>(result: Result<T, ShrinkHalt>) -> (r: Result<(), RunError>)
    ensures
        r == match result {
            Err(ShrinkHalt::Error(e)) => Err(e),
            _ => Ok(()),
        },
{
    match result {
        Err(ShrinkHalt::Error(e)) => Err(e),
        _ => Ok(()),
    }
}

/// One candidate that was offered, and whether it became or already was the
/// target.
pub struct Offer {
    pub target: Seq<NodeView>,
    pub candidate: Seq<NodeView>,
    /// What was made of it before the test was run.
    pub gate: Gate,
    /// Which run of the test it led to.
    pub run: Option<int>,
    pub taken: bool,
}

/// Whether an offer was dealt with as its candidate asks for, and taken if and
/// only if it is as simple as the target, or failed with simpler choices in a
/// run since there were `from` runs.
pub open spec fn offer_stands(o: Offer, runs: Seq<Run>, from: int) -> bool {
    let same = sort_key_of(o.candidate) == sort_key_of(o.target);
    let refused = simpler(o.target, cut_to(o.candidate, o.target));
    &&& o.gate is Same == same
    &&& o.gate is NotSimpler == (!same && refused)
    &&& o.gate is ForcedChanged == (!same && !refused && changes_forced(o.candidate, o.target))
    &&& match o.run {
        Some(u) => {
            &&& o.gate is Run
            &&& from <= u < runs.len()
            &&& runs[u].request == RunView::Full(o.candidate)
            &&& runs[u].considered
            &&& o.taken == adopts(o.target, runs[u])
        },
        None => o.taken == o.gate is Same,
    }
}

/// Whether the offers since the history had `from` entries stand.
pub open spec fn offers_stand(h: Seq<Offer>, from: int, runs: Seq<Run>, runs_from: int) -> bool {
    forall|t: int| from <= t < h.len() ==> offer_stands(#[trigger] h[t], runs, runs_from)
}

/// Whether all offers since the history had `from` entries were made while
/// `target` was the target, and none of them led to a run that replaces it.
pub open spec fn all_in_vain(
    h: Seq<Offer>,
    from: int,
    runs: Seq<Run>,
    target: Seq<NodeView>,
) -> bool {
    forall|t: int|
        from <= t < h.len() ==> (#[trigger] h[t]).target == target && (h[t].run matches Some(u)
            ==> !adopts(target, runs[u]))
}

/// Whether `candidate` was offered while `target` was the target, since the
/// history had `from` entries.
pub open spec fn offered(
    history: Seq<Offer>,
    from: nat,
    target: Seq<NodeView>,
    candidate: Seq<NodeView>,
) -> bool {
    exists|t: int|
        from <= t < history.len() && (#[trigger] history[t]).target == target
            && history[t].candidate == candidate
}

/// Whether the second history goes on from the first.
pub open spec fn extends<T>(old: Seq<T>, new: Seq<T>) -> bool {
    &&& old.len() <= new.len()
    &&& forall|t: int| 0 <= t < old.len() ==> #[trigger] new[t] == old[t]
}

/// What was offered stays offered.
pub proof fn lemma_offered_stays(
    old: Seq<Offer>,
    new: Seq<Offer>,
    from: nat,
    target: Seq<NodeView>,
    candidate: Seq<NodeView>,
)
    requires
        extends(old, new),
        offered(old, from, target, candidate),
    ensures
        offered(new, from, target, candidate),
{
    let t = choose|t: int|
        from <= t < old.len() && (#[trigger] old[t]).target == target && old[t].candidate
            == candidate;
    assert(new[t] == old[t]);
}

/// What [`Shrinker::consider`] makes of a candidate before it runs the test.
#[derive(Clone, Copy, Debug, PartialEq, Eq, Structural)]
pub enum Gate {
    /// The candidate is as simple as the target.
    Same,
    /// The candidate cannot become simpler than the target.
    NotSimpler,
    /// The candidate changes a choice that was forced.
    ForcedChanged,
    /// Enough improvements were made.
    Spent,
    /// Too many calls since the last improvement.
    Stalled,
    /// The test has to decide.
    Run,
}

/// `candidate` cut to the length of `target`.
pub open spec fn cut_to(candidate: Seq<NodeView>, target: Seq<NodeView>) -> Seq<NodeView> {
    if candidate.len() > target.len() {
        candidate.take(target.len() as int)
    } else {
        candidate
    }
}

/// Whether the candidate has another value where the target was forced.
pub open spec fn changes_forced(candidate: Seq<NodeView>, target: Seq<NodeView>) -> bool {
    candidate.len() == target.len() && exists|i: int|
        0 <= i < target.len() && (#[trigger] target[i]).was_forced && candidate[i].value
            != target[i].value
}

/// `a - b`, or zero where that is negative.
pub open spec fn gap(a: usize, b: usize) -> int {
    if a < b {
        0
    } else {
        a - b
    }
}

/// Whether every replacement fits: it names a choice that was not forced and
/// may have that value.
pub open spec fn applicable(target: Seq<NodeView>, reps: Seq<(usize, ValueView)>) -> bool {
    forall|k: int|
        0 <= k < reps.len() ==> {
            &&& (#[trigger] reps[k]).0 < target.len()
            &&& !target[reps[k].0 as int].was_forced
            &&& value_fits(target[reps[k].0 as int].kind, reps[k].1)
        }
}

/// The choices with the replacements made.
pub open spec fn applied(target: Seq<NodeView>, reps: Seq<(usize, ValueView)>) -> Seq<NodeView>
    decreases reps.len(),
{
    if reps.len() == 0 {
        target
    } else {
        let before = applied(target, reps.drop_last());
        let i = reps.last().0 as int;
        before.update(i, node_with(before[i], reps.last().1))
    }
}

/// Whether the replacements were offered while `target` was the target, or do
/// not fit it.
pub open spec fn tried(
    history: Seq<Offer>,
    from: nat,
    target: Seq<NodeView>,
    reps: Seq<(usize, ValueView)>,
) -> bool {
    applicable(target, reps) ==> offered(history, from, target, applied(target, reps))
}

/// What was tried stays tried.
pub proof fn lemma_tried_stays(
    old: Seq<Offer>,
    new: Seq<Offer>,
    old_from: nat,
    new_from: nat,
    target: Seq<NodeView>,
    reps: Seq<(usize, ValueView)>,
)
    requires
        extends(old, new),
        new_from <= old_from,
        tried(old, old_from, target, reps),
    ensures
        tried(new, new_from, target, reps),
{
    if applicable(target, reps) {
        let candidate = applied(target, reps);
        let t = choose|t: int|
            old_from <= t < old.len() && (#[trigger] old[t]).target == target && old[t].candidate
                == candidate;
        assert(new[t] == old[t]);
    }
}

/// The replacements as views.
pub open spec fn reps_view(reps: Seq<(usize, ChoiceValue)>) -> Seq<(usize, ValueView)> {
    reps.map_values(|r: (usize, ChoiceValue)| (r.0, r.1@))
}

/// Replacing values changes nothing else.
pub proof fn lemma_applied_keeps_the_rest(target: Seq<NodeView>, reps: Seq<(usize, ValueView)>)
    requires
        applicable(target, reps),
    ensures
        applied(target, reps).len() == target.len(),
        forall|i: int|
            0 <= i < target.len() ==> {
                &&& (#[trigger] applied(target, reps)[i]).kind == target[i].kind
                &&& applied(target, reps)[i].was_forced == target[i].was_forced
            },
        forall|i: int|
            0 <= i < target.len() && (forall|k: int|
                0 <= k < reps.len() ==> (#[trigger] reps[k]).0 != i) ==> #[trigger] applied(
                target,
                reps,
            )[i] == target[i],
        !changes_forced(applied(target, reps), target),
    decreases reps.len(),
{
    if reps.len() > 0 {
        let front = reps.drop_last();
        assert forall|k: int| 0 <= k < front.len() implies {
            &&& (#[trigger] front[k]).0 < target.len()
            &&& !target[front[k].0 as int].was_forced
            &&& value_fits(target[front[k].0 as int].kind, front[k].1)
        } by {
            assert(front[k] == reps[k]);
        }
        lemma_applied_keeps_the_rest(target, front);
        assert(reps.last() == reps[reps.len() - 1]);
        assert forall|i: int|
            0 <= i < target.len() && (forall|k: int|
                0 <= k < reps.len() ==> (#[trigger] reps[k]).0 != i) implies #[trigger] applied(
            target,
            reps,
        )[i] == target[i] by {
            assert forall|k: int| 0 <= k < front.len() implies (#[trigger] front[k]).0 != i by {
                assert(front[k] == reps[k]);
            }
        }
        assert forall|i: int| 0 <= i < target.len() && target[i].was_forced implies applied(
            target,
            reps,
        )[i].value == target[i].value by {
            assert forall|k: int| 0 <= k < reps.len() implies (#[trigger] reps[k]).0 != i by {
            }
            assert(applied(target, reps)[i] == target[i]);
        }
    }
}

/// The search for a simpler failing choice sequence.
pub struct Shrinker<P: ShrinkProbe> {
    /// Runs the test.
    pub test_fn: P,
    /// The target: the simplest failing choices found so far.
    pub current_nodes: Vec<ChoiceNode>,
    /// The spans of the run that gave the target.
    pub current_spans: Spans,
    /// How often the target was replaced by a simpler one.
    pub improvements: usize,
    /// The values of each target that was replaced.
    pub downgraded: Vec<Vec<ChoiceValue>>,
    /// The bound on improvements.
    pub max_improvements: usize,
    /// How often the test was run for `consider` or `probe`.
    pub calls: usize,
    /// The number of calls at the last improvement, or at the start of the
    /// current round of passes.
    pub calls_at_last_shrink: usize,
    /// The bound on calls without an improvement.
    pub max_stall: usize,
    /// The target when change tracking was last cleared.
    pub last_checkpoint_nodes: Vec<ChoiceNode>,
    /// The positions whose value has changed since then.
    pub all_changed_nodes: HashSet<usize>,
    /// Debug output, where it is wanted.
    pub debug: Option<Vec<String>>,
    /// The time, in nanoseconds since the Unix epoch, after which no test is
    /// run any more.
    pub deadline: Option<u128>,
    /// Whether the deadline was seen to have passed.
    pub timed_out: bool,
    /// The candidates offered so far.
    pub history: Ghost<Seq<Offer>>,
    /// The runs of the test so far, and what came of them.
    pub runs: Ghost<Seq<Run>>,
    /// What the clock showed each time it was read.
    pub readings: Ghost<Seq<Option<u128>>>,
}

impl<P: ShrinkProbe> Shrinker<P> {
    /// The target.
    pub open spec fn target(&self) -> Seq<NodeView> {
        nodes_view(self.current_nodes@)
    }

    /// What the search keeps.
    pub open spec fn kept(&self) -> Kept {
        Kept {
            target: self.target(),
            spans: self.current_spans@,
            improvements: self.improvements as int,
        }
    }

    /// Whether the deadline had passed all the while since an earlier state.
    pub open spec fn was_late(&self, old: Self) -> bool {
        old.timed_out || (old.deadline matches Some(deadline) && all_past(
            self.readings@,
            old.readings@.len() as int,
            deadline,
        ))
    }

    /// Whether the deadline was seen to have passed, in an earlier state or since.
    pub open spec fn ran_out(&self, old: Self) -> bool {
        old.timed_out || (old.deadline matches Some(deadline) && some_past(
            self.readings@,
            old.readings@.len() as int,
            deadline,
        ))
    }

    /// The state after the clock was looked at: it is read where there is a
    /// deadline that was not seen to have passed, and what it showed is kept.
    pub open spec fn timed(&self, old: Self) -> bool {
        &&& self.readings@ == if old.timed_out || old.deadline is None {
            old.readings@
        } else {
            old.readings@.push(self.readings@.last())
        }
        &&& self.timed_out == self.ran_out(old)
    }

    /// Tracked positions lie within the checkpoint, and the target has its
    /// length while any are tracked.
    pub open spec fn wf(&self) -> bool {
        forall|i: usize| #[trigger]
            self.all_changed_nodes@.contains(i) ==> i < self.last_checkpoint_nodes@.len()
                && self.current_nodes@.len() == self.last_checkpoint_nodes@.len()
    }

    /// What `consider` makes of a candidate before it runs the test.
    pub open spec fn gate_of(&self, candidate: Seq<NodeView>) -> Gate {
        if sort_key_of(candidate) == sort_key_of(self.target()) {
            Gate::Same
        } else if simpler(self.target(), cut_to(candidate, self.target())) {
            Gate::NotSimpler
        } else if changes_forced(candidate, self.target()) {
            Gate::ForcedChanged
        } else if self.improvements >= self.max_improvements {
            Gate::Spent
        } else if self.improvements > 0 && gap(self.calls, self.calls_at_last_shrink)
            >= self.max_stall {
            Gate::Stalled
        } else {
            Gate::Run
        }
    }

    /// How a later state of the search relates to an earlier one: the target
    /// only ever becomes simpler, and each improvement is counted and keeps
    /// what it replaced.
    pub open spec fn follows(&self, old: Self) -> bool {
        &&& self.advances(old)
        &&& self.debug == old.debug
        &&& self.tracks(old)
    }

    /// The positions that changed since the checkpoint are tracked from those
    /// that were tracked before.
    pub open spec fn tracks(&self, old: Self) -> bool {
        let checkpoint = nodes_view(old.last_checkpoint_nodes@);
        &&& nodes_view(self.last_checkpoint_nodes@) == checkpoint
        &&& self.all_changed_nodes@ == tracked_after(
            checkpoint,
            old.kept(),
            old.all_changed_nodes@,
            self.runs@.skip(old.runs@.len() as int),
        )
        &&& self.improvements == old.improvements ==> self.all_changed_nodes@
            == old.all_changed_nodes@
    }

    /// As `follows`, whatever became of the debug output and of the tracked
    /// positions.
    pub open spec fn advances(&self, old: Self) -> bool {
        &&& self.wf()
        &&& self.max_improvements == old.max_improvements
        &&& self.deadline == old.deadline
        &&& self.timed_out == self.ran_out(old)
        &&& old.improvements <= self.improvements
        &&& self.improvements == old.improvements ==> self.target() == old.target()
            && self.current_spans@ == old.current_spans@
        &&& self.improvements > old.improvements ==> simpler(self.target(), old.target())
            && self.improvements <= self.max_improvements
        &&& self.target().len() <= old.target().len()
        &&& self.downgraded@.len() - old.downgraded@.len() == self.improvements - old.improvements
        &&& extends(old.downgraded@, self.downgraded@)
        &&& self.downgrades(old)
        &&& old.calls <= self.calls
        &&& old.max_stall <= self.max_stall
        &&& extends(old.history@, self.history@)
        &&& extends(old.runs@, self.runs@)
        &&& extends(old.readings@, self.readings@)
        &&& self.kept() == kept_after(old.kept(), self.runs@.skip(old.runs@.len() as int))
        &&& self.was_probed(old)
        &&& self.was_late(old) ==> self.runs@ == old.runs@ && self.calls == old.calls
        &&& offers_stand(
            self.history@,
            old.history@.len() as int,
            self.runs@,
            old.runs@.len() as int,
        )
        &&& self.improvements == old.improvements ==> all_in_vain(
            self.history@,
            old.history@.len() as int,
            self.runs@,
            old.target(),
        )
    }

    /// Whether what was added to the replaced values since an earlier state are the
    /// values of the targets that runs have replaced.
    pub open spec fn downgrades(&self, old: Self) -> bool {
        downgrades_view(self.downgraded@.skip(old.downgraded@.len() as int)) =~= replaced_by(
            old.kept(),
            self.runs@.skip(old.runs@.len() as int),
        )
    }

    /// Whether the target, or one that a candidate was offered against since an
    /// earlier state, has a choice without a simplest value.
    pub open spec fn met_no_simplest(&self, old: Self) -> bool {
        lacks_simplest(self.target()) || exists|t: int|
            old.history@.len() <= t < self.history@.len() && lacks_simplest(
                (#[trigger] self.history@[t]).target,
            )
    }

    /// Whether the probe has not ended the search since an earlier state.
    pub open spec fn goes_on(&self, old: Self) -> bool {
        !ended_since(self.runs@, old.runs@.len() as int)
    }

    /// Whether what was done since an earlier state may end as `halt` says. Where
    /// the probe has ended the search, that is as the last run has it. Else the
    /// deadline was seen to have passed, enough improvements were made, or a choice
    /// of a target has no simplest value.
    pub open spec fn excused(&self, old: Self, halt: ShrinkHalt) -> bool {
        if !self.goes_on(old) {
            self.runs@.last().halt == Some(halt)
        } else {
            match halt {
                ShrinkHalt::Stop => self.ran_out(old) || self.improvements
                    >= self.max_improvements,
                ShrinkHalt::Error(RunError::Internal(_)) => self.met_no_simplest(old),
                ShrinkHalt::Error(RunError::Backend(_)) => false,
            }
        }
    }

    /// Whether what was done since an earlier state may end as `halt` says, or go
    /// on where it says nothing.
    pub open spec fn ends(&self, old: Self, halt: Option<ShrinkHalt>) -> bool {
        match halt {
            Some(halt) => self.excused(old, halt),
            None => self.goes_on(old),
        }
    }

    /// How a state relates to the one before replacements were offered and
    /// answered with `r`.
    pub open spec fn answered(
        &self,
        old: Self,
        reps: Seq<(usize, ValueView)>,
        r: Result<bool, ShrinkHalt>,
    ) -> bool {
        &&& self.replaced(old, reps, r)
        &&& self.follows(old)
        &&& self.ends(old, r.err())
        &&& r != Ok::<bool, ShrinkHalt>(true) ==> self.improvements == old.improvements
        &&& tried(self.history@, old.history@.len(), old.target(), reps)
        &&& r == Ok::<bool, ShrinkHalt>(true) && self.improvements == old.improvements
            ==> applicable(old.target(), reps) && sort_key_of(applied(old.target(), reps))
            == sort_key_of(old.target())
    }

    /// The fields besides the history and the requests are as they were.
    pub open spec fn rests(&self, old: Self) -> bool {
        &&& self.follows(old)
        &&& self.improvements == old.improvements
        &&& self.calls == old.calls
        &&& self.calls_at_last_shrink == old.calls_at_last_shrink
        &&& self.max_stall == old.max_stall
        &&& self.all_changed_nodes@ == old.all_changed_nodes@
        &&& self.last_checkpoint_nodes == old.last_checkpoint_nodes
        &&& self.runs@ == old.runs@
        &&& self.readings@ == old.readings@
        &&& self.timed_out == old.timed_out
        &&& self.current_nodes == old.current_nodes
        &&& self.current_spans == old.current_spans
        &&& self.downgraded == old.downgraded
        &&& self.test_fn == old.test_fn
    }

    /// The state after the outcome of a run was looked at: it is adopted where it
    /// failed with simpler choices, and the call is counted.
    pub open spec fn settled(&self, old: Self, a: Answer) -> bool {
        let adopted = a.failed && simpler(a.nodes, old.target());
        let calls = if old.calls < usize::MAX {
            old.calls + 1
        } else {
            usize::MAX as int
        };
        &&& self.calls == calls
        &&& nodes_view(self.last_checkpoint_nodes@) == nodes_view(old.last_checkpoint_nodes@)
        &&& self.max_improvements == old.max_improvements
        &&& self.deadline == old.deadline
        &&& self.debug == old.debug
        &&& if adopted {
            &&& self.target() == a.nodes
            &&& self.current_spans@ == a.spans
            &&& self.improvements == old.improvements + 1
            &&& self.downgraded@.len() == old.downgraded@.len() + 1
            &&& extends(old.downgraded@, self.downgraded@)
            &&& values_view(self.downgraded@.last()@) == node_values(old.target())
            &&& self.calls_at_last_shrink == self.calls
            &&& self.max_stall == grown_stall(
                old.max_stall,
                gap(self.calls, old.calls_at_last_shrink),
            )
            &&& self.all_changed_nodes@ == tracked_changes(
                nodes_view(old.last_checkpoint_nodes@),
                a.nodes,
                old.all_changed_nodes@,
            )
        } else {
            &&& self.current_nodes == old.current_nodes
            &&& self.current_spans == old.current_spans
            &&& self.improvements == old.improvements
            &&& self.downgraded == old.downgraded
            &&& self.calls_at_last_shrink == old.calls_at_last_shrink
            &&& self.max_stall == old.max_stall
            &&& self.all_changed_nodes@ == old.all_changed_nodes@
        }
    }

    /// The state after a run that was asked for as `request`: nothing but the
    /// clock where the deadline has passed; else one more run, whose outcome is
    /// looked at unless the probe ended the search.
    pub open spec fn ran(
        &self,
        old: Self,
        request: RunView,
        halt: Option<ShrinkHalt>,
    ) -> bool {
        if self.ran_out(old) {
            &&& halt == Some(ShrinkHalt::Stop)
            &&& self.timed(old)
            &&& self.runs@ == old.runs@
            &&& self.test_fn == old.test_fn
            &&& self.stays(old)
        } else {
            let run = self.runs@.last();
            &&& Self::probed(old.test_fn, self.test_fn, run)
            &&& self.timed(old)
            &&& self.runs@ == old.runs@.push(run)
            &&& run.request == request
            &&& run.considered
            &&& match run.answer {
                Some(a) => run.halt is None && self.settled(old, a),
                None => run.halt is Some && self.stays(old),
            }
            &&& halt == run.halt
        }
    }

    /// The last run, where there was one since an earlier state.
    pub open spec fn last_run(&self, old: Self) -> Option<int> {
        if self.runs@.len() > old.runs@.len() {
            Some(self.runs@.len() - 1)
        } else {
            None
        }
    }

    /// The state after a candidate was considered and answered with `r`.
    pub open spec fn considered(
        &self,
        old: Self,
        candidate: Seq<NodeView>,
        r: Result<bool, ShrinkHalt>,
    ) -> bool {
        &&& self.history@ == old.history@.push(
            Offer {
                target: old.target(),
                candidate,
                gate: old.gate_of(candidate),
                run: self.last_run(old),
                taken: r == Ok::<bool, ShrinkHalt>(true),
            },
        )
        &&& match old.gate_of(candidate) {
            Gate::Same => r == Ok::<bool, ShrinkHalt>(true) && self.rests(old),
            Gate::NotSimpler | Gate::ForcedChanged | Gate::Stalled => r == Ok::<bool, ShrinkHalt>(
                false,
            ) && self.rests(old),
            Gate::Spent => r == Err::<bool, ShrinkHalt>(ShrinkHalt::Stop) && self.rests(old),
            Gate::Run => {
                &&& self.ran(old, RunView::Full(candidate), r.err())
                &&& r matches Ok(adopted) ==> adopted == adopts(old.target(), self.runs@.last())
            },
        }
    }

    /// The state after replacements were offered and answered with `r`: those
    /// that do not fit the target are refused, and else the target with them is
    /// considered.
    pub open spec fn replaced(
        &self,
        old: Self,
        reps: Seq<(usize, ValueView)>,
        r: Result<bool, ShrinkHalt>,
    ) -> bool {
        if applicable(old.target(), reps) {
            self.considered(old, applied(old.target(), reps), r)
        } else {
            r == Ok::<bool, ShrinkHalt>(false) && *self == old
        }
    }

    /// What the search keeps and counts is as it was.
    pub open spec fn stays(&self, old: Self) -> bool {
        &&& self.current_nodes == old.current_nodes
        &&& self.current_spans == old.current_spans
        &&& self.improvements == old.improvements
        &&& self.downgraded == old.downgraded
        &&& self.calls == old.calls
        &&& self.calls_at_last_shrink == old.calls_at_last_shrink
        &&& self.max_stall == old.max_stall
        &&& self.max_improvements == old.max_improvements
        &&& self.all_changed_nodes@ == old.all_changed_nodes@
        &&& self.last_checkpoint_nodes == old.last_checkpoint_nodes
        &&& self.debug == old.debug
        &&& self.deadline == old.deadline
    }

    /// A search that starts from the given failing choices.
    pub fn with_probe(
        test_fn: P,
        initial_nodes: Vec<ChoiceNode>,
        initial_spans: Spans,
    ) -> (r: Self)
        ensures
            r.wf(),
            r.test_fn == test_fn,
            r.current_nodes == initial_nodes,
            r.current_spans == initial_spans,
            nodes_view(r.last_checkpoint_nodes@) == r.target(),
            r.improvements == 0,
            r.downgraded@.len() == 0,
            r.max_improvements == MAX_SHRINKS,
            r.calls == 0,
            r.calls_at_last_shrink == 0,
            r.max_stall == MAX_SHRINKS,
            r.all_changed_nodes@ == Set::<usize>::empty(),
            r.debug is None,
            r.deadline is None,
            !r.timed_out,
            r.history@.len() == 0,
            r.runs@.len() == 0,
            r.readings@.len() == 0,
    {
        let last_checkpoint_nodes = copy_nodes(initial_nodes.as_slice());
        Shrinker {
            test_fn,
            current_nodes: initial_nodes,
            current_spans: initial_spans,
            improvements: 0,
            downgraded: Vec::new(),
            max_improvements: MAX_SHRINKS,
            calls: 0,
            calls_at_last_shrink: 0,
            max_stall: MAX_SHRINKS,
            last_checkpoint_nodes,
            all_changed_nodes: HashSet::new(),
            debug: None,
            deadline: None,
            timed_out: false,
            history: Ghost(Seq::empty()),
            runs: Ghost(Seq::empty()),
            readings: Ghost(Seq::empty()),
        }
    }

    /// Whether the deadline has passed when the clock shows `now`; once it
    /// has, it stays so.
    pub fn past_deadline_at(&mut self, now: Option<u128>) -> (r: bool)
        ensures
            r == (old(self).timed_out || match (old(self).deadline, now) {
                (Some(deadline), Some(now)) => deadline <= now,
                _ => false,
            }),
            *final(self) == (Shrinker { timed_out: r, ..*old(self) }),
    {
        if self.timed_out {
            return true;
        }
        match (self.deadline, now) {
            (Some(deadline), Some(now)) => {
                if deadline <= now {
                    self.timed_out = true;
                    return true;
                }
                false
            },
            _ => false,
        }
    }

    /// Whether the deadline has passed.
    pub fn past_deadline(&mut self) -> (r: bool)
        ensures
            old(self).timed_out ==> r,
            old(self).deadline is None ==> r == old(self).timed_out,
            *final(self) == (Shrinker {
                timed_out: r,
                readings: final(self).readings,
                ..*old(self)
            }),
            !old(self).timed_out && old(self).deadline is Some ==> {
                &&& final(self).readings@.len() == old(self).readings@.len() + 1
                &&& final(self).readings@ == old(self).readings@.push(final(self).readings@.last())
                &&& r == shows_past(final(self).readings@.last(), old(self).deadline->Some_0)
            },
            old(self).timed_out || old(self).deadline is None ==> final(self).readings
                == old(self).readings,
    {
        if self.timed_out {
            return true;
        }
        if self.deadline.is_none() {
            return false;
        }
        let now = wall_clock();
        proof {
            self.readings@ = self.readings@.push(now);
        }
        self.past_deadline_at(now)
    }

    /// Collects debug output from now on.
    pub fn set_debug(&mut self)
        ensures
            final(self).debug matches Some(lines) && lines@.len() == 0,
            *final(self) == (Shrinker { debug: final(self).debug, ..*old(self) }),
    {
        self.debug = Some(Vec::new());
    }

    /// Adds a line to the debug output, where it is wanted.
    pub fn debug_msg(&mut self, msg: &str)
        ensures
            debug_view(final(self).debug) == match debug_view(old(self).debug) {
                Some(lines) => Some(lines.push(msg@)),
                None => None,
            },
            *final(self) == (Shrinker { debug: final(self).debug, ..*old(self) }),
    {
        let ghost before = debug_view(self.debug);
        if let Some(lines) = &mut self.debug {
            lines.push(msg.to_owned());
        }
        proof {
            if let Some(lines) = before {
                assert(debug_view(self.debug).unwrap() =~= lines.push(msg@));
            }
        }
    }

    /// Whether the probe may have come from the state `a` to the state `b` in a run.
    pub open spec fn probed(a: P, b: P, run: Run) -> bool {
        P::may_answer(a, b, Run { considered: false, ..run })
    }

    /// Whether the probe may have come from the state `a` to the state `b` in some
    /// runs, one after the other.
    pub open spec fn probed_through(a: P, b: P, runs: Seq<Run>) -> bool
        decreases runs.len(),
    {
        if runs.len() == 0 {
            a == b
        } else {
            exists|mid: P|
                Self::probed_through(a, mid, runs.drop_last()) && #[trigger] Self::probed(
                    mid,
                    b,
                    runs.last(),
                )
        }
    }

    /// Whether the probe has come to its state in the runs since an earlier state.
    pub open spec fn was_probed(&self, old: Self) -> bool {
        if self.runs@.len() == old.runs@.len() {
            self.test_fn == old.test_fn
        } else {
            Self::probed_through(
                old.test_fn,
                self.test_fn,
                self.runs@.skip(old.runs@.len() as int),
            )
        }
    }

    /// One run takes the probe on.
    proof fn lemma_probed_once(a: P)
        ensures
            forall|b: P, run: Run| #[trigger]
                Self::probed(a, b, run) ==> Self::probed_through(a, b, seq![run]),
    {
        assert(Self::probed_through(a, a, Seq::<Run>::empty()));
        assert forall|b: P, run: Run| #[trigger] Self::probed(a, b, run) implies
            Self::probed_through(a, b, seq![run]) by {
            assert(seq![run].drop_last() =~= Seq::<Run>::empty());
            assert(Self::probed(a, b, seq![run].last()));
        }
    }

    /// Runs after runs take the probe on.
    proof fn lemma_probed_more(a: P, b: P, c: P, first: Seq<Run>, second: Seq<Run>)
        requires
            Self::probed_through(a, b, first),
            Self::probed_through(b, c, second),
        ensures
            Self::probed_through(a, c, first + second),
        decreases second.len(),
    {
        if second.len() == 0 {
            assert(first + second =~= first);
        } else {
            let mid = choose|mid: P|
                Self::probed_through(b, mid, second.drop_last()) && #[trigger] Self::probed(
                    mid,
                    c,
                    second.last(),
                );
            Self::lemma_probed_more(a, b, mid, first, second.drop_last());
            assert((first + second).drop_last() =~= first + second.drop_last());
            assert(Self::probed(mid, c, (first + second).last()));
        }
    }

    /// How a state relates to the one before the test was run, unless the deadline
    /// has passed, and `r` came of it.
    pub open spec fn executed(
        &self,
        old: Self,
        request: RunView,
        considered: bool,
        r: Result<(bool, Vec<ChoiceNode>, Spans), ShrinkHalt>,
    ) -> bool {
        &&& *self == (Shrinker {
            test_fn: self.test_fn,
            timed_out: self.timed_out,
            runs: self.runs,
            readings: self.readings,
            ..old
        })
        &&& self.timed(old)
        &&& if self.ran_out(old) {
            &&& r == Err::<(bool, Vec<ChoiceNode>, Spans), ShrinkHalt>(ShrinkHalt::Stop)
            &&& self.runs@ == old.runs@
            &&& self.test_fn == old.test_fn
        } else {
            &&& self.runs@ == old.runs@.push(Run { considered, ..run_of(request, r) })
            &&& Self::probed(old.test_fn, self.test_fn, run_of(request, r))
        }
    }

    /// Runs the test, unless the deadline has passed. The outcome is for the
    /// caller to look at: it does not become the target.
    pub fn run_test_fn(&mut self, run: ShrinkRun<'_>) -> (r: Result<
        (bool, Vec<ChoiceNode>, Spans),
        ShrinkHalt,
    >)
        ensures
            final(self).executed(*old(self), run_view(run), false, r),
            !final(self).ran_out(*old(self)) ==> exists|m: &mut P|
                #![trigger call_ensures(P::run, (m, run), r)]
                call_ensures(P::run, (m, run), r) && *m == old(self).test_fn && *final(m)
                    == final(self).test_fn,
    {
        self.execute(run, Ghost(false))
    }

    /// Runs the test, unless the deadline has passed.
    fn execute(&mut self, run: ShrinkRun<'_>, Ghost(considered): Ghost<bool>) -> (r: Result<
        (bool, Vec<ChoiceNode>, Spans),
        ShrinkHalt,
    >)
        ensures
            final(self).executed(*old(self), run_view(run), considered, r),
            !final(self).ran_out(*old(self)) ==> exists|m: &mut P|
                #![trigger call_ensures(P::run, (m, run), r)]
                call_ensures(P::run, (m, run), r) && *m == old(self).test_fn && *final(m)
                    == final(self).test_fn,
    {
        let ghost start = *self;
        if self.past_deadline() {
            proof {
                if !start.timed_out {
                    assert(self.readings@[start.readings@.len() as int]
                        == self.readings@.last());
                }
            }
            return Err(ShrinkHalt::Stop);
        }
        proof {
            if start.deadline is Some {
                assert(self.readings@[start.readings@.len() as int] == self.readings@.last());
            }
        }
        let outcome = self.test_fn.run(run);
        proof {
            self.runs@ = self.runs@.push(
                Run { considered, ..run_of(run_view(run), outcome) },
            );
        }
        outcome
    }

    /// Adopts the outcome of a run where it failed and is simpler than the
    /// target, and counts the call.
    pub fn settle(
        &mut self,
        is_interesting: bool,
        actual_nodes: Vec<ChoiceNode>,
        actual_spans: Spans,
    ) -> (r: bool)
        requires
            old(self).wf(),
            old(self).improvements < old(self).max_improvements,
        ensures
            r == (is_interesting && simpler(nodes_view(actual_nodes@), old(self).target())),
            final(self).wf(),
            final(self).settled(
                *old(self),
                Answer {
                    failed: is_interesting,
                    nodes: nodes_view(actual_nodes@),
                    spans: actual_spans@,
                },
            ),
            r ==> final(self).current_nodes == actual_nodes && final(self).current_spans
                == actual_spans,
            !r ==> *final(self) == (Shrinker { calls: final(self).calls, ..*old(self) }),
            final(self).test_fn == old(self).test_fn,
            final(self).history == old(self).history,
            final(self).runs == old(self).runs,
            final(self).readings == old(self).readings,
            final(self).timed_out == old(self).timed_out,
    {
        self.calls = self.calls.saturating_add(1);
        if is_interesting {
            let new_key = sort_key(actual_nodes.as_slice());
            let old_key = sort_key(self.current_nodes.as_slice());
            if compare_keys(&new_key, &old_key) == Comparison::Less {
                self.accept_improvement(actual_nodes, actual_spans);
                return true;
            }
        }
        false
    }

    /// Makes the given choices the target: records the replaced values, counts
    /// the improvement and tracks what changed.
    fn accept_improvement(&mut self, new_nodes: Vec<ChoiceNode>, new_spans: Spans)
        requires
            old(self).wf(),
            old(self).improvements < usize::MAX,
        ensures
            final(self).wf(),
            final(self).improvements == old(self).improvements + 1,
            final(self).current_nodes == new_nodes,
            final(self).current_spans == new_spans,
            final(self).downgraded@.len() == old(self).downgraded@.len() + 1,
            extends(old(self).downgraded@, final(self).downgraded@),
            values_view(final(self).downgraded@.last()@) == node_values(old(self).target()),
            final(self).calls_at_last_shrink == old(self).calls,
            final(self).max_stall == grown_stall(
                old(self).max_stall,
                gap(old(self).calls, old(self).calls_at_last_shrink),
            ),
            final(self).all_changed_nodes@ == tracked_changes(
                nodes_view(old(self).last_checkpoint_nodes@),
                nodes_view(new_nodes@),
                old(self).all_changed_nodes@,
            ),
            final(self).test_fn == old(self).test_fn,
            final(self).max_improvements == old(self).max_improvements,
            final(self).calls == old(self).calls,
            final(self).last_checkpoint_nodes == old(self).last_checkpoint_nodes,
            final(self).debug == old(self).debug,
            final(self).deadline == old(self).deadline,
            final(self).timed_out == old(self).timed_out,
            final(self).history == old(self).history,
            final(self).runs == old(self).runs,
            final(self).readings == old(self).readings,
    {
        let old_values = values_of(self.current_nodes.as_slice());
        self.downgraded.push(old_values);
        self.improvements = self.improvements + 1;
        let span: usize = self.calls.saturating_sub(self.calls_at_last_shrink);
        let grown: usize = if span > usize::MAX / 2 {
            usize::MAX
        } else {
            span * 2
        };
        if grown > self.max_stall {
            self.max_stall = grown;
        }
        self.calls_at_last_shrink = self.calls;
        update_change_tracking(
            self.last_checkpoint_nodes.as_slice(),
            new_nodes.as_slice(),
            &mut self.all_changed_nodes,
        );
        self.current_nodes = new_nodes;
        self.current_spans = new_spans;
    }

    /// The positions that changed since tracking was last cleared.
    pub fn changed_nodes(&self) -> (r: &HashSet<usize>)
        ensures
            r@ == self.all_changed_nodes@,
    {
        &self.all_changed_nodes
    }

    /// Forgets the tracked positions and tracks changes from the target on.
    pub fn clear_change_tracking(&mut self)
        ensures
            final(self).wf(),
            final(self).all_changed_nodes@ == Set::<usize>::empty(),
            nodes_view(final(self).last_checkpoint_nodes@) == old(self).target(),
            *final(self) == (Shrinker {
                all_changed_nodes: final(self).all_changed_nodes,
                last_checkpoint_nodes: final(self).last_checkpoint_nodes,
                ..*old(self)
            }),
    {
        self.all_changed_nodes.clear();
        self.last_checkpoint_nodes = copy_nodes(self.current_nodes.as_slice());
    }

    /// What `consider` makes of a candidate before it runs the test.
    pub fn gate(&self, nodes: &[ChoiceNode]) -> (r: Gate)
        ensures
            r == self.gate_of(nodes_view(nodes@)),
    {
        let ghost c = nodes_view(nodes@);
        let ghost t = self.target();
        let target_key = sort_key(self.current_nodes.as_slice());
        if compare_keys(&sort_key(nodes), &target_key) == Comparison::Equal {
            proof {
                lemma_key_irreflexive(sort_key_of(c));
            }
            return Gate::Same;
        }
        proof {
            lemma_key_total(sort_key_of(c), sort_key_of(t));
        }
        let size: usize = self.current_nodes.len();
        let not_simpler = if nodes.len() > size {
            let cut = vstd::slice::slice_subrange(nodes, 0, size);
            assert(nodes_view(cut@) =~= cut_to(c, t));
            compare_keys(&target_key, &sort_key(cut)) == Comparison::Less
        } else {
            compare_keys(&target_key, &sort_key(nodes)) == Comparison::Less
        };
        if not_simpler {
            return Gate::NotSimpler;
        }
        if nodes.len() == size {
            let mut i: usize = 0;
            while i < size
                invariant
                    i <= size,
                    size == self.current_nodes@.len(),
                    size == nodes@.len(),
                    c == nodes_view(nodes@),
                    t == self.target(),
                    sort_key_of(c) != sort_key_of(t),
                    !simpler(t, cut_to(c, t)),
                    forall|j: int|
                        0 <= j < i && (#[trigger] t[j]).was_forced ==> c[j].value == t[j].value,
                decreases size - i,
            {
                assert(t[i as int] == self.current_nodes@[i as int]@);
                if self.current_nodes[i].was_forced && !nodes[i].value().same(
                    &self.current_nodes[i].value(),
                ) {
                    assert(changes_forced(c, t));
                    return Gate::ForcedChanged;
                }
                i = i + 1;
            }
        }
        assert(!changes_forced(c, t));
        if self.improvements >= self.max_improvements {
            Gate::Spent
        } else if self.improvements > 0 && self.calls.saturating_sub(self.calls_at_last_shrink)
            >= self.max_stall {
            Gate::Stalled
        } else {
            Gate::Run
        }
    }

    /// Offers a candidate. Where the test fails on it with choices simpler
    /// than the target, those become the target.
    ///
    /// The answer is whether the candidate is the target now: because it was
    /// already as simple, or because what it ran as was adopted. What is
    /// adopted are the choices that the run made, not the candidate.
    pub fn consider(&mut self, nodes: &[ChoiceNode]) -> (r: Result<bool, ShrinkHalt>)
        requires
            old(self).wf(),
        ensures
            final(self).follows(*old(self)),
            final(self).ends(*old(self), r.err()),
            final(self).considered(*old(self), nodes_view(nodes@), r),
            r is Err ==> final(self).improvements == old(self).improvements,
    {
        let ghost start = *self;
        let gate = self.gate(nodes);
        let ghost candidate = nodes_view(nodes@);
        let outcome = match gate {
            Gate::Same => Ok(true),
            Gate::NotSimpler | Gate::ForcedChanged | Gate::Stalled => Ok(false),
            Gate::Spent => Err(ShrinkHalt::Stop),
            Gate::Run => {
                let outcome = self.execute(ShrinkRun::Full(nodes), Ghost(true));
                let r = match outcome {
                    Ok((is_interesting, actual_nodes, actual_spans)) => Ok(
                        self.settle(is_interesting, actual_nodes, actual_spans),
                    ),
                    Err(halt) => Err(halt),
                };
                proof {
                    assert(self.ran(start, RunView::Full(candidate), r.err()));
                    Self::lemma_run_is_followed(start, *self);
                }
                r
            },
        };
        let ghost looked = *self;
        proof {
            if !(gate is Run) {
                Self::lemma_follows_reflexive(start);
            }
            assert(looked.follows(start));
            self.history@ = self.history@.push(
                Offer {
                    target: start.target(),
                    candidate,
                    gate,
                    run: self.last_run(start),
                    taken: outcome == Ok::<bool, ShrinkHalt>(true),
                },
            );
        }
        outcome
    }

    /// Replays `prefix`, lets the test draw on at random up to `max_size`
    /// choices, and adopts what it made where that fails and is simpler.
    pub fn probe(&mut self, prefix: &[ChoiceValue], max_size: usize) -> (r: Result<(), ShrinkHalt>)
        requires
            old(self).wf(),
        ensures
            final(self).follows(*old(self)),
            final(self).ends(*old(self), r.err()),
            final(self).history@ == old(self).history@,
            old(self).improvements >= old(self).max_improvements ==> r == Err::<(), ShrinkHalt>(
                ShrinkHalt::Stop,
            ) && final(self).rests(*old(self)),
            old(self).improvements < old(self).max_improvements ==> if old(self).improvements > 0
                && gap(old(self).calls, old(self).calls_at_last_shrink) >= old(self).max_stall {
                r == Ok::<(), ShrinkHalt>(()) && final(self).rests(*old(self))
            } else {
                final(self).ran(
                    *old(self),
                    RunView::Probe(values_view(prefix@), max_size),
                    r.err(),
                )
            },
            r is Err ==> final(self).improvements == old(self).improvements,
    {
        if self.improvements >= self.max_improvements {
            return Err(ShrinkHalt::Stop);
        }
        if self.improvements > 0 && self.calls.saturating_sub(self.calls_at_last_shrink)
            >= self.max_stall {
            return Ok(());
        }
        let ghost start = *self;
        let outcome = self.execute(ShrinkRun::Probe { prefix, max_size }, Ghost(true));
        let r = match outcome {
            Ok((is_interesting, actual_nodes, actual_spans)) => {
                self.settle(is_interesting, actual_nodes, actual_spans);
                Ok(())
            },
            Err(halt) => Err(halt),
        };
        proof {
            assert(self.ran(start, RunView::Probe(values_view(prefix@), max_size), r.err()));
            Self::lemma_run_is_followed(start, *self);
        }
        r
    }

    /// The clock is read at most once before a run, so what it showed was late
    /// all the while if and only if it was late at all.
    proof fn lemma_timed(old: Self, new: Self)
        requires
            new.timed(old),
            new.deadline == old.deadline,
        ensures
            extends(old.readings@, new.readings@),
            new.was_late(old) == new.timed_out,
    {
        if !old.timed_out && old.deadline is Some {
            assert(new.readings@[old.readings@.len() as int] == new.readings@.last());
        }
    }

    /// After a run that was only looked at, the search follows from where it was.
    pub proof fn lemma_inspection_is_followed(
        old: Self,
        new: Self,
        request: RunView,
        r: Result<(bool, Vec<ChoiceNode>, Spans), ShrinkHalt>,
    )
        requires
            old.wf(),
            new.executed(old, request, false, r),
        ensures
            new.follows(old),
    {
        let n = old.runs@.len() as int;
        Self::lemma_timed(old, new);
        Self::lemma_probed_once(old.test_fn);
        if new.timed_out {
            assert(new.runs@.skip(n) =~= Seq::<Run>::empty());
        } else {
            let last = new.runs@.last();
            assert(new.runs@.skip(n) =~= seq![last]);
            lemma_kept_after_one(old.kept(), last);
            lemma_replaced_by_one(old.kept(), last);
            lemma_tracked_after_one(
                nodes_view(old.last_checkpoint_nodes@),
                old.kept(),
                old.all_changed_nodes@,
                last,
            );
            assert(new.runs@[n] == last);
        }
    }

    /// After a run, or none where the deadline has passed, the search follows from
    /// where it was.
    proof fn lemma_run_is_followed(old: Self, new: Self)
        requires
            old.wf(),
            new.wf(),
            new.history@ == old.history@,
            old.improvements < old.max_improvements,
            exists|request: RunView, halt: Option<ShrinkHalt>| #[trigger]
                new.ran(old, request, halt),
        ensures
            new.follows(old),
    {
        let n = old.runs@.len() as int;
        Self::lemma_timed(old, new);
        Self::lemma_probed_once(old.test_fn);
        if new.timed_out {
            assert(new.runs@.skip(n) =~= Seq::<Run>::empty());
        } else {
            let run = new.runs@.last();
            assert(new.runs@.skip(n) =~= seq![run]);
            lemma_kept_after_one(old.kept(), run);
            lemma_replaced_by_one(old.kept(), run);
            lemma_tracked_after_one(
                nodes_view(old.last_checkpoint_nodes@),
                old.kept(),
                old.all_changed_nodes@,
                run,
            );
            assert(new.runs@[n] == run);
            if adopts(old.target(), run) {
                lemma_simpler_is_no_longer(new.target(), old.target());
            }
        }
    }

    /// Offers the target with the given values at the given positions.
    ///
    /// Nothing is offered, and the answer is no, where a position is past the
    /// end or was forced, or where its kind does not admit the value.
    pub fn replace(&mut self, values: &Vec<(usize, ChoiceValue)>) -> (r: Result<bool, ShrinkHalt>)
        requires
            old(self).wf(),
        ensures
            final(self).follows(*old(self)),
            final(self).ends(*old(self), r.err()),
            final(self).answered(*old(self), reps_view(values@), r),
    {
        let ghost target = self.target();
        let ghost reps = reps_view(values@);
        let mut attempt: Vec<ChoiceNode> = copy_nodes(self.current_nodes.as_slice());
        let mut k: usize = 0;
        assert(reps.take(0) =~= Seq::empty());
        while k < values.len()
            invariant
                k <= values@.len(),
                reps == reps_view(values@),
                target == self.target(),
                *self == *old(self),
                self.wf(),
                applicable(target, reps.take(k as int)),
                nodes_view(attempt@) == applied(target, reps.take(k as int)),
            decreases values@.len() - k,
        {
            let i: usize = values[k].0;
            proof {
                lemma_applied_keeps_the_rest(target, reps.take(k as int));
                assert(reps[k as int] == (values@[k as int].0, values@[k as int].1@));
                assert(reps.take(k + 1).drop_last() =~= reps.take(k as int));
                assert(reps.take(k + 1).last() == reps[k as int]);
                assert(nodes_view(attempt@).len() == attempt@.len());
            }
            if i >= attempt.len() {
                return Ok(false);
            }
            assert(nodes_view(attempt@)[i as int] == attempt@[i as int]@);
            assert(applied(target, reps.take(k as int))[i as int].kind == target[i as int].kind);
            if attempt[i].was_forced {
                return Ok(false);
            }
            match attempt[i].with_value(&values[k].1) {
                None => {
                    return Ok(false);
                },
                Some(replaced) => {
                    let ghost before = attempt@;
                    attempt.set(i, replaced);
                    proof {
                        assert(nodes_view(attempt@) =~= applied(target, reps.take(k + 1)));
                        assert forall|j: int| 0 <= j < reps.take(k + 1).len() implies {
                            &&& (#[trigger] reps.take(k + 1)[j]).0 < target.len()
                            &&& !target[reps.take(k + 1)[j].0 as int].was_forced
                            &&& value_fits(
                                target[reps.take(k + 1)[j].0 as int].kind,
                                reps.take(k + 1)[j].1,
                            )
                        } by {
                            if j < k {
                                assert(reps.take(k as int)[j] == reps[j]);
                            }
                        }
                    }
                },
            }
            k = k + 1;
        }
        proof {
            assert(reps.take(values@.len() as int) =~= reps);
        }
        let r = self.consider(attempt.as_slice());
        proof {
            assert(self.history@[self.history@.len() - 1].candidate == applied(target, reps));
        }
        r
    }

    /// A state follows itself.
    pub proof fn lemma_follows_reflexive(a: Self)
        requires
            a.wf(),
        ensures
            a.follows(a),
    {
    }

    /// What a search keeps are the choices and spans that it began with, or those
    /// of a run of the test that failed.
    pub proof fn lemma_target_failed(old: Self, new: Self)
        requires
            new.advances(old),
        ensures
            new.improvements == old.improvements ==> new.kept() == old.kept(),
            new.improvements > old.improvements ==> exists|t: int|
                old.runs@.len() <= t < new.runs@.len() && (#[trigger] new.runs@[t]).considered
                    && new.runs@[t].answer == Some(
                    Answer { failed: true, nodes: new.target(), spans: new.current_spans@ },
                ),
    {
        let n = old.runs@.len() as int;
        let since = new.runs@.skip(n);
        lemma_what_is_kept_failed(old.kept(), since);
        if new.improvements > old.improvements {
            let t = choose|t: int|
                0 <= t < since.len() && (#[trigger] since[t]).considered && since[t].answer == Some(
                    Answer { failed: true, nodes: new.target(), spans: new.current_spans@ },
                );
            assert(new.runs@[n + t] == since[t]);
        }
    }

    /// Past its deadline a search runs nothing, and nothing of what it keeps or
    /// counts changes.
    pub proof fn lemma_late_search_rests(old: Self, new: Self)
        requires
            new.advances(old),
            new.was_late(old),
        ensures
            new.runs@ == old.runs@,
            new.kept() == old.kept(),
            new.calls == old.calls,
            new.downgraded@ == old.downgraded@,
            new.met_no_simplest(old) == lacks_simplest(old.target()),
    {
        let n = old.runs@.len() as int;
        assert(new.runs@.skip(n) =~= Seq::<Run>::empty());
    }

    /// What follows a later state follows the earlier ones.
    pub proof fn lemma_follows_transitive(a: Self, b: Self, c: Self)
        requires
            b.follows(a),
            c.follows(b),
        ensures
            c.follows(a),
            b.goes_on(a) ==> c.goes_on(a) == c.goes_on(b),
    {
        Self::lemma_advances_transitive(a, b, c);
        let (n, m) = (a.runs@.len() as int, b.runs@.len() as int);
        assert(c.runs@.skip(n) =~= b.runs@.skip(n) + c.runs@.skip(m));
        lemma_tracked_after_more(
            nodes_view(a.last_checkpoint_nodes@),
            a.kept(),
            a.all_changed_nodes@,
            b.runs@.skip(n),
            c.runs@.skip(m),
        );
    }

    /// What advances from a later state advances from the earlier ones.
    pub proof fn lemma_advances_transitive(a: Self, b: Self, c: Self)
        requires
            b.advances(a),
            c.advances(b),
        ensures
            c.advances(a),
            b.goes_on(a) ==> c.goes_on(a) == c.goes_on(b),
    {
        if c.improvements > b.improvements && b.improvements > a.improvements {
            lemma_key_transitive(
                sort_key_of(c.target()),
                sort_key_of(b.target()),
                sort_key_of(a.target()),
            );
        }
        assert forall|t: int| 0 <= t < a.history@.len() implies #[trigger] c.history@[t]
            == a.history@[t] by {
            assert(b.history@[t] == a.history@[t]);
        }
        assert forall|t: int| 0 <= t < a.runs@.len() implies #[trigger] c.runs@[t]
            == a.runs@[t] by {
            assert(b.runs@[t] == a.runs@[t]);
        }
        let (n, m) = (a.runs@.len() as int, b.runs@.len() as int);
        assert(c.runs@.skip(n) =~= b.runs@.skip(n) + c.runs@.skip(m));
        lemma_kept_after_more(a.kept(), b.runs@.skip(n), c.runs@.skip(m));
        lemma_replaced_by_more(a.kept(), b.runs@.skip(n), c.runs@.skip(m));
        let (from, mid) = (a.downgraded@.len() as int, b.downgraded@.len() as int);
        assert(downgrades_view(c.downgraded@.skip(from)) =~= downgrades_view(
            b.downgraded@.skip(from),
        ) + downgrades_view(c.downgraded@.skip(mid)));
        if m == n {
            assert(c.runs@.skip(m) =~= c.runs@.skip(n));
        } else if c.runs@.len() == m {
            assert(c.runs@.skip(n) =~= b.runs@.skip(n));
        } else {
            Self::lemma_probed_more(
                a.test_fn,
                b.test_fn,
                c.test_fn,
                b.runs@.skip(n),
                c.runs@.skip(m),
            );
        }
        assert(ended_since(c.runs@, n) == (ended_since(b.runs@, n) || ended_since(c.runs@, m))) by {
            if ended_since(b.runs@, n) {
                let t = choose|t: int| n <= t < b.runs@.len() && (#[trigger] b.runs@[t]).halt is Some;
                assert(c.runs@[t] == b.runs@[t]);
            }
            if ended_since(c.runs@, n) {
                let t = choose|t: int| n <= t < c.runs@.len() && (#[trigger] c.runs@[t]).halt is Some;
                if t < m {
                    assert(c.runs@[t] == b.runs@[t]);
                }
            }
        }
        assert forall|t: int| 0 <= t < a.readings@.len() implies #[trigger] c.readings@[t]
            == a.readings@[t] by {
            assert(b.readings@[t] == a.readings@[t]);
        }
        if !a.timed_out && a.deadline is Some {
            let (from, mid) = (a.readings@.len() as int, b.readings@.len() as int);
            let deadline = a.deadline->Some_0;
            if some_past(b.readings@, from, deadline) {
                let t = choose|t: int|
                    from <= t < mid && shows_past(#[trigger] b.readings@[t], deadline);
                assert(c.readings@[t] == b.readings@[t]);
            }
            if some_past(c.readings@, from, deadline) {
                let t = choose|t: int|
                    from <= t < c.readings@.len() && shows_past(
                        #[trigger] c.readings@[t],
                        deadline,
                    );
                if t < mid {
                    assert(c.readings@[t] == b.readings@[t]);
                }
            }
        }
        if c.was_late(a) && !a.timed_out {
            assert forall|t: int| a.readings@.len() <= t < b.readings@.len() implies shows_past(
                #[trigger] b.readings@[t],
                a.deadline->Some_0,
            ) by {
                assert(c.readings@[t] == b.readings@[t]);
            }
        }
        assert forall|t: int| a.history@.len() <= t < c.history@.len() implies offer_stands(
            #[trigger] c.history@[t],
            c.runs@,
            n,
        ) by {
            if t < b.history@.len() {
                assert(c.history@[t] == b.history@[t]);
                if let Some(u) = b.history@[t].run {
                    assert(c.runs@[u] == b.runs@[u]);
                }
            }
        }
        if c.improvements == a.improvements {
            assert forall|t: int| a.history@.len() <= t < c.history@.len() implies (
            #[trigger] c.history@[t]).target == a.target() && (c.history@[t].run matches Some(u)
                ==> !adopts(a.target(), c.runs@[u])) by {
                if t < b.history@.len() {
                    assert(c.history@[t] == b.history@[t]);
                    if let Some(u) = b.history@[t].run {
                        assert(c.runs@[u] == b.runs@[u]);
                    }
                }
            }
        }
        assert forall|t: int| 0 <= t < a.downgraded@.len() implies #[trigger] c.downgraded@[t]
            == a.downgraded@[t] by {
            assert(b.downgraded@[t] == a.downgraded@[t]);
        }
    }
}

impl<P: ShrinkProbe> Shrinker<P> {
    /// Whether one question of a search was put, and answered as the next mark
    /// has it.
    pub open spec fn asked(
        marks: Seq<(FindInteger, Self)>,
        t: int,
        step: spec_fn(Self, Self, int, bool) -> bool,
    ) -> bool {
        let (before, a) = marks[t];
        let (after, b) = marks[t + 1];
        let ok = after.lo > before.lo;
        &&& before.question() is Some
        &&& after == before.after(ok)
        &&& step(a, b, before.question().unwrap() as int, ok)
    }

    /// Whether the marks are the beginning of a search from a state on, whose
    /// questions are put by `step`.
    pub open spec fn searching(
        marks: Seq<(FindInteger, Self)>,
        a: Self,
        step: spec_fn(Self, Self, int, bool) -> bool,
    ) -> bool {
        &&& marks.len() > 0
        &&& marks[0] == (FindInteger::fresh(), a)
        &&& forall|t: int| 0 <= t < marks.len() - 1 ==> #[trigger] Self::asked(marks, t, step)
    }

    /// Whether a search led from one state to another: its questions were put by
    /// `step`, which has the states before and after, the number that was asked
    /// for and the answer, until nothing was left to ask.
    pub open spec fn searched(
        a: Self,
        b: Self,
        step: spec_fn(Self, Self, int, bool) -> bool,
    ) -> bool {
        exists|marks: Seq<(FindInteger, Self)>| #[trigger]
            Self::searching(marks, a, step) && marks.last().1 == b && marks.last().0.phase is Done
    }

    /// A search goes on with one question more.
    pub(super) proof fn lemma_asked(
        marks: Seq<(FindInteger, Self)>,
        a: Self,
        step: spec_fn(Self, Self, int, bool) -> bool,
        ok: bool,
        b: Self,
    )
        requires
            Self::searching(marks, a, step),
            marks.last().0.wf(),
            marks.last().0.question() is Some,
            step(marks.last().1, b, marks.last().0.question().unwrap() as int, ok),
        ensures
            Self::searching(marks.push((marks.last().0.after(ok), b)), a, step),
    {
        let last = marks.last().0;
        let next = marks.push((last.after(ok), b));
        assert((last.after(ok).lo > last.lo) == ok);
        assert forall|t: int| 0 <= t < next.len() - 1 implies #[trigger] Self::asked(
            next,
            t,
            step,
        ) by {
            if t < marks.len() - 1 {
                assert(Self::asked(marks, t, step));
            }
        }
    }

    /// Whether replacements were offered, whatever came of it.
    pub open spec fn offered_once(a: Self, b: Self, reps: Seq<(usize, ValueView)>) -> bool {
        b.replaced(a, reps, Ok(true)) || b.replaced(a, reps, Ok(false))
    }

    /// Whether a candidate was considered, whatever came of it.
    pub open spec fn considered_once(a: Self, b: Self, candidate: Seq<NodeView>) -> bool {
        b.considered(a, candidate, Ok(true)) || b.considered(a, candidate, Ok(false))
    }

    /// Whether one question of a downward search was put, and answered as the
    /// next mark has it.
    pub open spec fn asked_down(
        marks: Seq<(DownView, Self)>,
        t: int,
        step: spec_fn(Self, Self, int, bool) -> bool,
    ) -> bool {
        let (before, a) = marks[t];
        let (after, b) = marks[t + 1];
        let ok = after.hi != before.hi;
        &&& before.question() is Some
        &&& after == before.after(ok)
        &&& step(a, b, before.question().unwrap() as int, ok)
    }

    /// Whether the marks are the beginning of a downward search below `top`.
    pub open spec fn searching_down(
        marks: Seq<(DownView, Self)>,
        a: Self,
        top: nat,
        step: spec_fn(Self, Self, int, bool) -> bool,
    ) -> bool {
        &&& marks.len() > 0
        &&& marks[0] == (DownView { phase: DownPhase::Bottom, lo: 0, hi: top }, a)
        &&& forall|t: int| 0 <= t < marks.len() - 1 ==> #[trigger] Self::asked_down(marks, t, step)
    }

    /// Whether a downward search below `top` led from one state to another.
    pub open spec fn searched_down(
        a: Self,
        b: Self,
        top: nat,
        step: spec_fn(Self, Self, int, bool) -> bool,
    ) -> bool {
        exists|marks: Seq<(DownView, Self)>| #[trigger]
            Self::searching_down(marks, a, top, step) && marks.last().1 == b
                && marks.last().0.phase is Done
    }

    /// A downward search goes on with one question more.
    pub(super) proof fn lemma_asked_down(
        marks: Seq<(DownView, Self)>,
        a: Self,
        top: nat,
        step: spec_fn(Self, Self, int, bool) -> bool,
        ok: bool,
        b: Self,
    )
        requires
            Self::searching_down(marks, a, top, step),
            marks.last().0.question() is Some,
            marks.last().0.question().unwrap() != marks.last().0.hi,
            step(marks.last().1, b, marks.last().0.question().unwrap() as int, ok),
        ensures
            Self::searching_down(marks.push((marks.last().0.after(ok), b)), a, top, step),
    {
        let last = marks.last().0;
        let next = marks.push((last.after(ok), b));
        assert((last.after(ok).hi != last.hi) == ok);
        assert forall|t: int| 0 <= t < next.len() - 1 implies #[trigger] Self::asked_down(
            next,
            t,
            step,
        ) by {
            if t < marks.len() - 1 {
                assert(Self::asked_down(marks, t, step));
            }
        }
    }

    /// Whether one step of a walk was made.
    pub open spec fn stepped(
        marks: Seq<Self>,
        t: int,
        step: spec_fn(Self, Self, int) -> bool,
    ) -> bool {
        step(marks[t], marks[t + 1], t)
    }

    /// Whether the marks are those of a walk from a state on, whose steps are
    /// counted from zero.
    pub open spec fn walking(
        marks: Seq<Self>,
        a: Self,
        step: spec_fn(Self, Self, int) -> bool,
    ) -> bool {
        &&& marks.len() > 0
        &&& marks[0] == a
        &&& forall|t: int| 0 <= t < marks.len() - 1 ==> #[trigger] Self::stepped(marks, t, step)
    }

    /// Whether a walk of `n` steps led from one state to another.
    pub open spec fn walked(
        a: Self,
        b: Self,
        n: int,
        step: spec_fn(Self, Self, int) -> bool,
    ) -> bool {
        exists|marks: Seq<Self>| #[trigger]
            Self::walking(marks, a, step) && marks.last() == b && marks.len() == n + 1
    }

    /// Whether a walk led from one state to another that took a step at every
    /// position of the target, as it was at the time.
    pub open spec fn walked_through(
        a: Self,
        b: Self,
        step: spec_fn(Self, Self, int) -> bool,
    ) -> bool {
        exists|n: int| n >= b.target().len() && #[trigger] Self::walked(a, b, n, step)
    }

    /// Whether what began in one state ended in another as `halt` says.
    pub open spec fn halted_in(a: Self, b: Self, halt: ShrinkHalt) -> bool {
        b.advances(a) && b.excused(a, halt)
    }

    /// Whether a walk of `n` steps was made up to one of them, which was made in
    /// `part`.
    pub open spec fn walk_cut(
        a: Self,
        b: Self,
        n: int,
        step: spec_fn(Self, Self, int) -> bool,
        part: spec_fn(Self, Self, int) -> bool,
    ) -> bool {
        exists|mid: Self, t: int| #[trigger]
            Self::walked(a, mid, t, step) && t < n && part(mid, b, t)
    }

    /// Whether a walk through the target was made up to a step that was made in
    /// `part`.
    pub open spec fn walk_through_cut(
        a: Self,
        b: Self,
        step: spec_fn(Self, Self, int) -> bool,
        part: spec_fn(Self, Self, int) -> bool,
    ) -> bool {
        exists|mid: Self, t: int| #[trigger]
            Self::walked(a, mid, t, step) && t < mid.target().len() && part(mid, b, t)
    }

    /// Whether a search was made up to a question that was put in `part`.
    pub open spec fn search_cut(
        a: Self,
        b: Self,
        step: spec_fn(Self, Self, int, bool) -> bool,
        part: spec_fn(Self, Self, int) -> bool,
    ) -> bool {
        exists|marks: Seq<(FindInteger, Self)>| #[trigger]
            Self::searching(marks, a, step) && (marks.last().0.question() matches Some(q) && part(
                marks.last().1,
                b,
                q as int,
            ))
    }

    /// Whether a downward search below `top` was made up to a question that was
    /// put in `part`.
    pub open spec fn search_down_cut(
        a: Self,
        b: Self,
        top: nat,
        step: spec_fn(Self, Self, int, bool) -> bool,
        part: spec_fn(Self, Self, int) -> bool,
    ) -> bool {
        exists|marks: Seq<(DownView, Self)>| #[trigger]
            Self::searching_down(marks, a, top, step) && (marks.last().0.question() matches Some(q)
                && part(marks.last().1, b, q as int))
    }

    /// A walk goes on with one step more.
    pub(super) proof fn lemma_stepped(
        marks: Seq<Self>,
        a: Self,
        step: spec_fn(Self, Self, int) -> bool,
        b: Self,
    )
        requires
            Self::walking(marks, a, step),
            step(marks.last(), b, marks.len() - 1),
        ensures
            Self::walking(marks.push(b), a, step),
    {
        let next = marks.push(b);
        assert forall|t: int| 0 <= t < next.len() - 1 implies #[trigger] Self::stepped(
            next,
            t,
            step,
        ) by {
            if t < marks.len() - 1 {
                assert(Self::stepped(marks, t, step));
            }
        }
    }
}

/// The view of a request.
pub open spec fn run_view(run: ShrinkRun<'_>) -> RunView {
    match run {
        ShrinkRun::Full(nodes) => RunView::Full(nodes_view(nodes@)),
        ShrinkRun::Probe { prefix, max_size } => RunView::Probe(values_view(prefix@), max_size),
    }
}

/// The stall bound after an improvement that took `span` calls.
pub open spec fn grown_stall(max_stall: usize, span: int) -> int {
    let grown = if 2 * span > usize::MAX {
        usize::MAX as int
    } else {
        2 * span
    };
    if grown > max_stall {
        grown
    } else {
        max_stall as int
    }
}

/// Whether two choice sequences have the same length and sorts of choices.
pub open spec fn same_shape(a: Seq<NodeView>, b: Seq<NodeView>) -> bool {
    a.len() == b.len() && forall|i: int|
        0 <= i < a.len() ==> same_sort((#[trigger] a[i]).kind, b[i].kind)
}

/// The tracked positions after the choices became `new`: those before and
/// those whose value is not the one at the checkpoint, or none where the shape
/// has changed.
pub open spec fn tracked_changes(
    checkpoint: Seq<NodeView>,
    new: Seq<NodeView>,
    before: Set<usize>,
) -> Set<usize> {
    if same_shape(checkpoint, new) {
        before.union(
            Set::new(|i: usize| i < new.len() && checkpoint[i as int].value != new[i as int].value),
        )
    } else {
        Set::empty()
    }
}

/// Adds the positions at which `new` differs from `prev` to `changed`, or
/// empties it where the shape differs.
pub fn update_change_tracking(
    prev: &[ChoiceNode],
    new: &[ChoiceNode],
    changed: &mut HashSet<usize>,
)
    ensures
        final(changed)@ == tracked_changes(nodes_view(prev@), nodes_view(new@), old(changed)@),
{
    let ghost a = nodes_view(prev@);
    let ghost b = nodes_view(new@);
    if prev.len() != new.len() {
        changed.clear();
        return;
    }
    let mut i: usize = 0;
    while i < prev.len()
        invariant
            i <= prev@.len(),
            prev@.len() == new@.len(),
            a == nodes_view(prev@),
            b == nodes_view(new@),
            forall|j: int| 0 <= j < i ==> same_sort((#[trigger] a[j]).kind, b[j].kind),
            changed@ == old(changed)@,
        decreases prev@.len() - i,
    {
        if !is_same_sort(&prev[i].data, &new[i].data) {
            assert(!same_sort(a[i as int].kind, b[i as int].kind));
            changed.clear();
            return;
        }
        i = i + 1;
    }
    let mut k: usize = 0;
    while k < prev.len()
        invariant
            k <= prev@.len(),
            prev@.len() == new@.len(),
            a == nodes_view(prev@),
            b == nodes_view(new@),
            same_shape(a, b),
            changed@ == old(changed)@.union(
                Set::new(|i: usize| i < k && a[i as int].value != b[i as int].value),
            ),
        decreases prev@.len() - k,
    {
        let x = prev[k].value();
        let y = new[k].value();
        let ghost before = changed@;
        if !x.same(&y) {
            changed.insert(k);
        }
        assert(a[k as int].value == x@ && b[k as int].value == y@);
        assert(changed@ =~= old(changed)@.union(
            Set::new(|i: usize| i < k + 1 && a[i as int].value != b[i as int].value),
        ));
        k = k + 1;
    }
    assert(changed@ =~= tracked_changes(a, b, old(changed)@));
}

} // verus!
