//! Runs: what their results say, and when the next test case comes.
use super::handles::is_live;
use super::has_room_for;
use super::is_random;
use super::is_simplest;
use crate::abi::cases::FamilyShared;
use crate::abi::cases::HegelTestCase;
use crate::abi::hegel_result_t;
use crate::abi::observations::hegel_event;
use crate::abi::observations::hegel_event_value;
use crate::abi::observations::hegel_target;
use crate::abi::observations::target_labels;
use crate::abi::runs::hegel_next_test_case;
use crate::abi::runs::hegel_run_free;
use crate::abi::runs::hegel_run_result;
use crate::abi::runs::hegel_run_result_error;
use crate::abi::runs::hegel_run_result_failure;
use crate::abi::runs::hegel_run_result_failure_count;
use crate::abi::runs::hegel_run_result_status;
use crate::abi::runs::hegel_run_start;
use crate::abi::runs::hegel_run_status_t;
use crate::abi::runs::EngineStep;
use crate::abi::runs::HegelFailure;
use crate::abi::runs::HegelRun;
use crate::abi::runs::HegelRunResult;
use crate::abi::runs::NextAction;
use crate::abi::settings::HegelSettings;
use crate::abi::structures::hegel_pool_add;
use crate::abi::structures::hegel_pool_generate;
use crate::abi::structures::HegelPool;
use crate::abi::HegelContext;
use crate::abi::TextArg;
use crate::drawing::members_of;
use crate::errors::Status;
use crate::sampling::Distributions;
use crate::test_case::DataObserver;
use crate::test_case::NativeTestCase;
use crate::variables::active_ids;
use crate::variables::lemma_consume_takes_one;
use crate::variables::lemma_some_unused_is_smallest;
use crate::variables::lemma_some_used_is_largest;
use vstd::prelude::*;

verus! {

/// The status of a run is an error where it ended in one. Otherwise it passed where it has
/// no failures, and failed where it has some, as a test that is not deterministic where
/// it is known to be none. As many failures are told of as there are, each by its index.
pub proof fn lemma_results_say_what_happened(
    result: &HegelRunResult,
    index: usize,
    status: Result<hegel_run_status_t, hegel_result_t>,
    error: Result<Option<String>, hegel_result_t>,
    count: Result<usize, hegel_result_t>,
    failure: Result<HegelFailure, hegel_result_t>,
)
    requires
        exists|c: &mut HegelContext| #[trigger]
            call_ensures(hegel_run_result_status, (c, Some(result), false), status),
        exists|c: &mut HegelContext| #[trigger]
            call_ensures(hegel_run_result_error, (c, Some(result), false), error),
        exists|c: &mut HegelContext| #[trigger]
            call_ensures(hegel_run_result_failure_count, (c, Some(result), false), count),
        exists|c: &mut HegelContext| #[trigger]
            call_ensures(hegel_run_result_failure, (c, Some(result), index, false), failure),
    ensures
        status is Ok && error is Ok && count is Ok,
        status->Ok_0 == hegel_run_status_t::HEGEL_RUN_STATUS_ERROR <==> result.error is Some,
        status->Ok_0 == hegel_run_status_t::HEGEL_RUN_STATUS_PASSED <==> result.error is None
            && result.failures@.len() == 0,
        status->Ok_0 == hegel_run_status_t::HEGEL_RUN_STATUS_FAILED <==> result.error is None
            && result.failures@.len() > 0 && !result.nondeterministic,
        status->Ok_0 == hegel_run_status_t::HEGEL_RUN_STATUS_FAILED_NONDETERMINISTIC
            <==> result.error is None && result.failures@.len() > 0 && result.nondeterministic,
        error->Ok_0 is Some <==> result.error is Some,
        result.error is Some ==> error->Ok_0->Some_0@ == result.error->Some_0@,
        count->Ok_0 == result.failures@.len(),
        failure is Ok <==> index < result.failures@.len(),
        failure is Ok ==> failure->Ok_0.origin@ == result.failures@[index as int].origin@,
        failure is Err ==> failure->Err_0 == hegel_result_t::HEGEL_E_INVALID_ARG,
{
    assert(result.failures.len() == result.failures@.len());
    assert(result@.failures.len() == result.failures@.len());
    if index < result.failures@.len() {
        assert(result@.failures[index as int] == result.failures@[index as int]@);
    }
}

/// A run begins without a result and without a test case. The engine is resumed for the
/// next test case while there is no result, once the one before is complete.
pub proof fn lemma_test_cases_follow_each_other(
    settings: &HegelSettings,
    run: Result<HegelRun, hegel_result_t>,
    before: HegelRun,
    after: HegelRun,
    completed: bool,
    r: Result<NextAction, hegel_result_t>,
)
    requires
        exists|c: &mut HegelContext| #[trigger]
            call_ensures(hegel_run_start, (c, Some(settings), false), run),
        exists|c: &mut HegelContext, h: &mut HegelRun| #[trigger]
            call_ensures(hegel_next_test_case, (c, Some(h), completed, false), r) && *h == before
                && *final(h) == after,
    ensures
        run is Ok && run->Ok_0.running && !run->Ok_0.offered && run->Ok_0.result is None,
        before.offered && !completed ==> r == Err::<NextAction, hegel_result_t>(
            hegel_result_t::HEGEL_E_NOT_COMPLETE,
        ) && after == before,
        !before.offered || completed ==> {
            &&& r == Ok::<NextAction, hegel_result_t>(
                if before.running {
                    NextAction::Resume
                } else {
                    NextAction::Done
                },
            )
            &&& !after.offered
            &&& after.running == before.running
            &&& after.result == before.result
        },
{
}

/// A run goes on where the engine offers a test case, and ends where it does not. It ends
/// with the failures that the engine found, or with an error. Its result can be read
/// from then on, and not before.
pub proof fn lemma_runs_end_with_their_result(
    before: HegelRun,
    after: HegelRun,
    step: EngineStep,
    r: bool,
    early: Result<HegelRunResult, hegel_result_t>,
    late: Result<HegelRunResult, hegel_result_t>,
)
    requires
        exists|h: &mut HegelRun| #[trigger]
            call_ensures(HegelRun::step, (h, step), r) && *h == before && *final(h) == after,
        exists|c: &mut HegelContext| #[trigger]
            call_ensures(hegel_run_result, (c, Some(&before), false), early),
        exists|c: &mut HegelContext| #[trigger]
            call_ensures(hegel_run_result, (c, Some(&after), false), late),
        before.running,
        before.result is None,
    ensures
        early is Err && early->Err_0 == hegel_result_t::HEGEL_E_NOT_COMPLETE,
        r <==> step is Offered,
        step is Offered ==> after.running && after.offered && after.result is None,
        !(step is Offered) ==> !after.running && after.result is Some && late is Ok,
        step matches EngineStep::Finished(Ok(found)) ==> {
            &&& after.result->Some_0.error is None
            &&& after.result->Some_0.failures@.len() == found.failures@.len()
            &&& late->Ok_0.failures@.len() == found.failures@.len()
            &&& after.result->Some_0.nondeterministic == found.nondeterministic
            &&& after.reporter is Some ==> after.reported == Some(found.failures@.len() == 0)
        },
        step matches EngineStep::Finished(Err(_)) ==> {
            &&& after.result->Some_0.error is Some
            &&& after.result->Some_0.failures@.len() == 0
            &&& after.reporter is Some ==> after.reported == Some(false)
        },
        step is Broken ==> {
            &&& after.result->Some_0.error is Some
            &&& after.result->Some_0.failures@.len() == 0
            &&& after.reporter is Some ==> after.reported == Some(false)
        },
{
    if !(step is Offered) {
        let told = after.result->Some_0;
        assert(told@.failures.len() == told.failures@.len());
        assert(late->Ok_0@.failures.len() == late->Ok_0.failures@.len());
    }
}

/// A run that is given up completes the test case that is still open as one that passed.
pub proof fn lemma_runs_are_given_up(family: FamilyShared, after: FamilyShared, r: hegel_result_t)
    requires
        exists|c: &mut HegelContext, f: &mut FamilyShared| #[trigger]
            call_ensures(hegel_run_free, (c, Some(f)), r) && *f == family && *final(f) == after,
    ensures
        r == hegel_result_t::HEGEL_OK,
        family.completed ==> after == family,
        !family.completed ==> after.completed && (family.core.conclusion is None ==> (
        after.core.conclusion is Some && after.core.conclusion->Some_0.0 == Status::Valid)),
{
}

/// An observation is recorded with its label and its number, after those that were, where
/// the number is finite and the label is new. Otherwise nothing is recorded.
pub proof fn lemma_targets_are_recorded(
    tc: Option<&HegelTestCase>,
    family: FamilyShared,
    after: FamilyShared,
    bits: u64,
    label: &TextArg,
    r: hegel_result_t,
)
    requires
        exists|c: &mut HegelContext, f: &mut FamilyShared| #[trigger]
            call_ensures(hegel_target, (c, tc, f, bits, label), r) && *f == family && *final(f)
                == after,
        is_live(tc, family),
    ensures
        ({
            let old = family.core.target_observations@;
            let new = after.core.target_observations@;
            &&& *label matches TextArg::Text(t) ==> {
                let finite = bits as int % 0x8000_0000_0000_0000 < 0x7ff0_0000_0000_0000;
                let known = exists|i: int| 0 <= i < old.len() && (#[trigger] old[i]).0@ == t@;
                &&& r == hegel_result_t::HEGEL_OK <==> finite && !known
                &&& r == hegel_result_t::HEGEL_OK ==> new.len() == old.len() + 1 && new.take(
                    old.len() as int,
                ) == old && new.last().0@ == t@ && new.last().1 == bits
            }
            &&& !(label is Text) ==> r == hegel_result_t::HEGEL_E_INVALID_ARG
            &&& r != hegel_result_t::HEGEL_OK ==> after == family
        }),
{
    let old = family.core.target_observations@;
    let new = after.core.target_observations@;
    let labels = target_labels(old);
    if let TextArg::Text(t) = *label {
        if labels.contains(t@) {
            let i = choose|i: int| 0 <= i < labels.len() && labels[i] == t@;
            assert(old[i].0@ == t@);
        }
        if exists|i: int| 0 <= i < old.len() && (#[trigger] old[i]).0@ == t@ {
            let i = choose|i: int| 0 <= i < old.len() && (#[trigger] old[i]).0@ == t@;
            assert(labels[i] == t@);
        }
    }
    if r == hegel_result_t::HEGEL_OK {
        assert(new.take(old.len() as int) =~= old);
    }
}

/// An event is recorded with its label, and with its number where it has one, after those
/// that were. It may be recorded any number of times.
pub proof fn lemma_events_are_recorded(
    tc: Option<&HegelTestCase>,
    family: FamilyShared,
    after: FamilyShared,
    label: &TextArg,
    r: hegel_result_t,
    bits: u64,
    valued: FamilyShared,
    s: hegel_result_t,
)
    requires
        exists|c: &mut HegelContext, f: &mut FamilyShared| #[trigger]
            call_ensures(hegel_event, (c, tc, f, label), r) && *f == family && *final(f) == after,
        exists|c: &mut HegelContext, f: &mut FamilyShared| #[trigger]
            call_ensures(hegel_event_value, (c, tc, f, bits, label), s) && *f == family && *final(f)
                == valued,
        is_live(tc, family),
    ensures
        r == hegel_result_t::HEGEL_OK <==> label is Text,
        s == hegel_result_t::HEGEL_OK <==> label is Text && bits as int % 0x8000_0000_0000_0000
            < 0x7ff0_0000_0000_0000,
        r != hegel_result_t::HEGEL_OK ==> after == family,
        s != hegel_result_t::HEGEL_OK ==> valued == family,
        r == hegel_result_t::HEGEL_OK ==> {
            &&& after.core.events@.drop_last() == family.core.events@
            &&& after.core.events@.last().0@ == label->Text_0@
            &&& after.core.events@.last().1 is None
        },
        s == hegel_result_t::HEGEL_OK ==> {
            &&& valued.core.events@.drop_last() == family.core.events@
            &&& valued.core.events@.last().0@ == label->Text_0@
            &&& valued.core.events@.last().1 == Some(bits)
        },
{
    if r == hegel_result_t::HEGEL_OK {
        assert(after.core.events@.drop_last() =~= family.core.events@);
    }
    if s == hegel_result_t::HEGEL_OK {
        assert(valued.core.events@.drop_last() =~= family.core.events@);
    }
}

/// A variable that is drawn from a pool is one of its active ones. It stays active unless
/// it is consumed, and so do the others in any case. Without active ones the draw breaks
/// an assumption, and nothing is drawn.
pub proof fn lemma_pools_give_active_variables<D: Distributions, O: DataObserver>(
    tc: Option<&HegelTestCase>,
    family: FamilyShared,
    stream: NativeTestCase<D, O>,
    new_stream: NativeTestCase<D, O>,
    before: HegelPool,
    after: HegelPool,
    consume: bool,
    id: i64,
    r: Result<i64, hegel_result_t>,
)
    requires
        exists|
            c: &mut HegelContext,
            f: &mut FamilyShared,
            m: &mut NativeTestCase<D, O>,
            h: &mut HegelPool,
        | #[trigger]
            call_ensures(hegel_pool_generate::<D, O>, (c, tc, f, m, Some(h), consume, false), r)
                && *f == family && *m == stream && *final(m) == new_stream && *h == before
                && *final(h) == after,
        is_live(tc, family),
        stream.structure@.stack.len() < 1000,
        before.variables.variables().no_duplicates(),
    ensures
        ({
            let active = active_ids(before.variables.variables(), before.variables.removed());
            let left = active_ids(after.variables.variables(), after.variables.removed());
            &&& active.len() == 0 ==> r == Err::<i64, hegel_result_t>(
                hegel_result_t::HEGEL_E_ASSUME,
            ) && new_stream == stream
            &&& r == Ok::<i64, hegel_result_t>(id) ==> active.contains(id)
            &&& r == Ok::<i64, hegel_result_t>(id) && consume ==> left == active.filter(
                |x: i64| x != id,
            )
            &&& r is Ok && !consume ==> left == active
            &&& r is Err ==> after == before
        }),
{
    lemma_consume_takes_one(before.variables.variables(), before.variables.removed(), id);
    let active = active_ids(before.variables.variables(), before.variables.removed());
    assert(members_of(active).contains(id) ==> active.contains(id));
}

/// A variable that is added to a pool is one that was not in use in the test case, and it
/// is active from then on, after those that were.
pub proof fn lemma_pools_take_fresh_variables<D: Distributions, O: DataObserver>(
    tc: Option<&HegelTestCase>,
    family: FamilyShared,
    new_family: FamilyShared,
    stream: NativeTestCase<D, O>,
    before: HegelPool,
    after: HegelPool,
    unused: i64,
    r: Result<i64, hegel_result_t>,
)
    requires
        exists|
            c: &mut HegelContext,
            f: &mut FamilyShared,
            m: &mut NativeTestCase<D, O>,
            h: &mut HegelPool,
        | #[trigger]
            call_ensures(hegel_pool_add::<D, O>, (c, tc, f, m, Some(h), false), r) && *f == family
                && *final(f) == new_family && *m == stream && *h == before && *final(h) == after,
        is_live(tc, family),
    ensures
        r is Ok ==> {
            &&& !family.core.fresh_ids@.contains(r->Ok_0)
            &&& new_family.core.fresh_ids@ == family.core.fresh_ids@.insert(r->Ok_0)
            &&& after.variables.variables() == before.variables.variables().push(r->Ok_0)
        },
        has_room_for(stream, family.core, 1) && (is_simplest(stream) || is_random(stream)) && 0
            <= unused && !family.core.fresh_ids@.contains(unused) ==> r is Ok,
        r is Err ==> after.variables.variables() == before.variables.variables(),
        after.variables.removed() == before.variables.removed(),
{
    lemma_some_used_is_largest(family.core.fresh_ids@, i64::MAX);
    if 0 <= unused && !family.core.fresh_ids@.contains(unused) {
        lemma_some_unused_is_smallest(family.core.fresh_ids@, unused);
    }
}

} // verus!
