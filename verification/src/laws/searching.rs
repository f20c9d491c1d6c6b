//! The search for simpler failing choices: what it runs, what it keeps and when it ends.
use crate::bignum::BigUint;
use crate::choices::nodes_view;
use crate::choices::ChoiceNode;
use crate::choices::NodeView;
use crate::errors::RunError;
use crate::order::lemma_key_irreflexive;
use crate::order::lemma_key_total;
use crate::order::lemma_simpler_is_no_longer;
use crate::order::simpler;
use crate::order::sort_key_of;
use crate::shrinker::changes_forced;
use crate::shrinker::search::BinSearchDownBig;
use crate::shrinker::search::FindInteger;
use crate::shrinker::RunView;
use crate::shrinker::ShrinkHalt;
use crate::shrinker::ShrinkProbe;
use crate::shrinker::Shrinker;
use crate::spans::Spans;
use vstd::prelude::*;

verus! {

/// The choices of a target.
pub open spec fn choices_of<P: ShrinkProbe>(s: Shrinker<P>) -> Seq<NodeView> {
    nodes_view(s.current_nodes@)
}

/// A search begins with what it is given, has done nothing, and has no deadline. It may
/// make five hundred improvements, and five hundred calls without one.
pub proof fn lemma_searches_begin_with_what_failed<P: ShrinkProbe>(
    probe: P,
    nodes: Vec<ChoiceNode>,
    spans: Spans,
    r: Shrinker<P>,
)
    requires
        call_ensures(Shrinker::<P>::with_probe, (probe, nodes, spans), r),
    ensures
        r.current_nodes == nodes,
        r.current_spans == spans,
        r.test_fn == probe,
        r.improvements == 0,
        r.max_improvements == 500,
        r.calls == 0,
        r.max_stall == 500,
        r.deadline is None,
        !r.timed_out,
        r.runs@.len() == 0,
        r.history@.len() == 0,
{
}

/// A candidate with fewer choices than the target is put to the test, unless the search
/// is to end. So is one of as many choices that is simpler and leaves the forced ones as
/// they are. One that is as simple as the target is taken without a run, and one that is
/// less simple, or changes what was forced, is refused without one.
pub proof fn lemma_candidates_are_put_to_the_test<P: ShrinkProbe>(
    before: Shrinker<P>,
    after: Shrinker<P>,
    nodes: &[ChoiceNode],
    r: Result<bool, ShrinkHalt>,
)
    requires
        exists|m: &mut Shrinker<P>| #[trigger]
            call_ensures(Shrinker::<P>::consider, (m, nodes), r) && *m == before && *final(m)
                == after,
        before.wf(),
        before.improvements < before.max_improvements,
        before.improvements == 0 || before.calls - before.calls_at_last_shrink < before.max_stall,
        before.max_stall > 0,
        before.deadline is None,
        !before.timed_out,
    ensures
        ({
            let t = choices_of(before);
            let c = nodes_view(nodes@);
            let keeps_forced = forall|i: int|
                0 <= i < t.len() && (#[trigger] t[i]).was_forced ==> c[i].value == t[i].value;
            let runs = c.len() < t.len() || (c.len() == t.len() && simpler(c, t) && keeps_forced);
            let run = after.runs@.last();
            &&& runs ==> {
                &&& after.runs@ == before.runs@.push(run)
                &&& run.request == RunView::Full(c)
                &&& match run.answer {
                    Some(a) => {
                        let better = a.failed && simpler(a.nodes, t);
                        &&& r == Ok::<bool, ShrinkHalt>(better)
                        &&& choices_of(after) == if better {
                            a.nodes
                        } else {
                            t
                        }
                        &&& after.improvements == before.improvements + if better {
                            1int
                        } else {
                            0
                        }
                    },
                    None => {
                        &&& run.halt is Some && r == Err::<bool, ShrinkHalt>(run.halt->Some_0)
                        &&& choices_of(after) == t
                    },
                }
            }
            &&& sort_key_of(c) == sort_key_of(t) ==> r == Ok::<bool, ShrinkHalt>(true)
                && after.runs@ == before.runs@ && choices_of(after) == t
            &&& c.len() == t.len() && simpler(t, c) ==> r == Ok::<bool, ShrinkHalt>(false)
                && after.runs@ == before.runs@ && choices_of(after) == t
            &&& c.len() == t.len() && sort_key_of(c) != sort_key_of(t) && !keeps_forced ==> r
                == Ok::<bool, ShrinkHalt>(false) && after.runs@ == before.runs@ && choices_of(after)
                == t
        }),
{
    let t = choices_of(before);
    let c = nodes_view(nodes@);
    lemma_simpler_is_no_longer(c, t);
    lemma_simpler_is_no_longer(t, c);
    lemma_key_total(sort_key_of(c), sort_key_of(t));
    lemma_key_irreflexive(sort_key_of(c));
    assert(before.target() == t);
    let keeps_forced = forall|i: int|
        0 <= i < t.len() && (#[trigger] t[i]).was_forced ==> c[i].value == t[i].value;
    if c.len() == t.len() {
        assert(changes_forced(c, t) == !keeps_forced);
    }
}

/// What came of a run replaces the target where the test failed with simpler choices,
/// and nothing else does. Where it does, twice as many calls as it took are allowed
/// before the next one, if that is more than before.
pub proof fn lemma_only_simpler_failures_are_kept<P: ShrinkProbe>(
    before: Shrinker<P>,
    after: Shrinker<P>,
    failed: bool,
    nodes: Vec<ChoiceNode>,
    spans: Spans,
    r: bool,
)
    requires
        exists|m: &mut Shrinker<P>| #[trigger]
            call_ensures(Shrinker::<P>::settle, (m, failed, nodes, spans), r) && *m == before
                && *final(m) == after,
        before.wf(),
        before.improvements < before.max_improvements,
        before.calls < usize::MAX,
    ensures
        r <==> failed && simpler(nodes_view(nodes@), choices_of(before)),
        r ==> after.current_nodes == nodes && after.current_spans == spans && after.improvements
            == before.improvements + 1,
        !r ==> after.current_nodes == before.current_nodes && after.current_spans
            == before.current_spans && after.improvements == before.improvements,
        after.calls == before.calls + 1,
        ({
            let spent = after.calls - before.calls_at_last_shrink;
            &&& r && 0 <= spent && 2 * spent <= usize::MAX ==> after.calls_at_last_shrink
                == after.calls && after.max_stall == if 2 * spent > before.max_stall {
                2 * spent
            } else {
                before.max_stall as int
            }
            &&& !r ==> after.calls_at_last_shrink == before.calls_at_last_shrink && after.max_stall
                == before.max_stall
        }),
{
}

/// A search ends with the target that it began with, or with a simpler one for which a
/// run of the test failed. It never ends with more choices than it began with.
pub proof fn lemma_searches_end_with_what_failed<P: ShrinkProbe>(
    before: Shrinker<P>,
    after: Shrinker<P>,
    r: Result<(), RunError>,
)
    requires
        exists|m: &mut Shrinker<P>| #[trigger]
            call_ensures(Shrinker::<P>::shrink, (m,), r) && *m == before && *final(m) == after,
        before.wf(),
    ensures
        choices_of(after) == choices_of(before) || simpler(choices_of(after), choices_of(before)),
        choices_of(after) != choices_of(before) ==> exists|u: int|
            {
                &&& before.runs@.len() <= u < after.runs@.len()
                &&& (#[trigger] after.runs@[u]).answer is Some
                &&& after.runs@[u].answer->Some_0.failed
                &&& after.runs@[u].answer->Some_0.nodes == choices_of(after)
            },
        choices_of(after).len() <= choices_of(before).len(),
        after.improvements >= before.improvements,
{
    Shrinker::<P>::lemma_target_failed(before, after);
}

/// A search whose deadline has passed runs nothing, and a search whose clock shows a time
/// before the deadline goes on.
pub proof fn lemma_deadlines_are_kept<P: ShrinkProbe>(
    before: Shrinker<P>,
    after: Shrinker<P>,
    now: Option<u128>,
    r: bool,
)
    requires
        exists|m: &mut Shrinker<P>| #[trigger]
            call_ensures(Shrinker::<P>::past_deadline_at, (m, now), r) && *m == before && *final(m)
                == after,
    ensures
        before.timed_out ==> r,
        !before.timed_out ==> (r <==> before.deadline is Some && now is Some && now->Some_0
            >= before.deadline->Some_0),
        after.timed_out == r,
        after.current_nodes == before.current_nodes,
        after.runs@ == before.runs@,
{
}

/// Whether what a search has found out so far is so: `lo` holds, or is zero; while the
/// search narrows, `hi` does not hold; and when it is done, one more than `lo` does not
/// hold, unless the numbers ran out.
pub open spec fn has_found_out(s: FindInteger, f: spec_fn(int) -> bool) -> bool {
    &&& s.lo == 0 || f(s.lo as int)
    &&& s.phase is Narrowing ==> !f(s.hi as int)
    &&& s.phase is Done ==> !f(s.lo + 1) || s.lo > usize::MAX / 2
}

/// A search for a number that holds where the next one does not asks for numbers that
/// are larger than the one it has, and is told the truth about them. It then finds such
/// a number.
pub proof fn lemma_searches_find_the_edge(
    start: FindInteger,
    before: FindInteger,
    after: FindInteger,
    question: Option<usize>,
    answer: bool,
    found: usize,
    f: spec_fn(int) -> bool,
)
    requires
        call_ensures(FindInteger::new, (), start),
        call_ensures(FindInteger::probe, (&before,), question),
        exists|m: &mut FindInteger| #[trigger]
            call_ensures(FindInteger::record, (m, answer), ()) && *m == before && *final(m)
                == after,
        call_ensures(FindInteger::found, (&after,), found),
        before.wf(),
        !(before.phase is Done),
        has_found_out(before, f),
        question is Some ==> answer == f(question->Some_0 as int),
    ensures
        has_found_out(start, f) && start.lo == 0 && !(start.phase is Done),
        question is Some,
        question->Some_0 > before.lo,
        before.phase is Narrowing ==> question->Some_0 < before.hi,
        has_found_out(after, f),
        found == after.lo,
        after.lo == if answer {
            question->Some_0
        } else {
            before.lo
        },
        found > 0 ==> f(found as int),
        after.phase is Done ==> !f(found + 1) || found > usize::MAX / 2,
{
}

/// Whether what a downward search has found out so far is so: `hi` holds; while it
/// narrows, `lo` does not; and when it is done, `hi` is the lower end, or the number just
/// below it does not hold.
pub open spec fn has_found_out_down(s: BinSearchDownBig, f: spec_fn(int) -> bool) -> bool {
    &&& f(s.hi@ as int)
    &&& s.phase is Narrowing ==> !f(s.lo@ as int)
    &&& s.phase is Done ==> s.lo@ == s.hi@ || (!f(s.lo@ as int) && s.hi@ <= s.lo@ + 1)
}

/// A downward search asks for the lower end first, and then between the numbers that it
/// has. It finds the lower end where that holds, and else a number that holds just above
/// one that does not.
pub proof fn lemma_downward_searches_find_the_edge(
    lo: BigUint,
    hi: BigUint,
    start: BinSearchDownBig,
    before: BinSearchDownBig,
    after: BinSearchDownBig,
    question: Option<BigUint>,
    answer: bool,
    found: BigUint,
    f: spec_fn(int) -> bool,
)
    requires
        call_ensures(BinSearchDownBig::new, (lo, hi), start),
        call_ensures(BinSearchDownBig::probe, (&before,), question),
        exists|m: &mut BinSearchDownBig| #[trigger]
            call_ensures(BinSearchDownBig::record, (m, answer), ()) && *m == before && *final(m)
                == after,
        call_ensures(BinSearchDownBig::found, (&after,), found),
        before.wf(),
        !(before.phase is Done),
        has_found_out_down(before, f),
        question is Some ==> answer == f(question->Some_0@ as int),
    ensures
        start.lo@ == lo@ && start.hi@ == hi@ && start.phase is Bottom,
        question is Some,
        before.phase is Bottom ==> question->Some_0@ == before.lo@,
        before.phase is Narrowing ==> before.lo@ < question->Some_0@ < before.hi@,
        has_found_out_down(after, f),
        found@ == after.hi@,
        f(found@ as int),
        after.hi@ == if answer {
            question->Some_0@
        } else {
            before.hi@
        },
{
}

} // verus!
