//! Values and state machines that callers ask for: what they are told of them.
use super::arguments::lemma_some_entry_is_wrong;
use super::handles::is_live;
use super::has_room_for;
use super::replays;
use super::special::is_day;
use super::special::is_no_later;
use super::special::lemma_dates_between;
use crate::abi::cases::FamilyShared;
use crate::abi::cases::HegelTestCase;
use crate::abi::hegel_result_t;
use crate::abi::strings::entries_fault;
use crate::abi::strings::texts_view;
use crate::abi::strings::TextsArg;
use crate::abi::structures::first_place;
use crate::abi::structures::hegel_new_collection;
use crate::abi::structures::hegel_new_state_machine;
use crate::abi::structures::hegel_state_machine_next_group;
use crate::abi::structures::hegel_state_machine_next_rule;
use crate::abi::structures::hegel_state_machine_rule_rejected;
use crate::abi::structures::hegel_state_machine_should_check_invariant;
use crate::abi::structures::lemma_done_is_no_group;
use crate::abi::structures::machine_answer;
use crate::abi::structures::HEGEL_STATE_MACHINE_DONE;
use crate::abi::structures::HegelCollection;
use crate::abi::structures::HegelStateMachine;
use crate::abi::structures::MachineArgs;
use crate::abi::structures::MachineStep;
use crate::abi::values::c_date;
use crate::abi::values::c_time;
use crate::abi::values::hegel_date_t;
use crate::abi::values::hegel_generate_date;
use crate::abi::values::hegel_time_t;
use crate::abi::values::rust_date;
use crate::abi::values::rust_time;
use crate::abi::HegelContext;
use crate::abi::TextArg;
use crate::choices::ValueView;
use crate::civil::Date;
use crate::civil::Time;
use crate::errors::EngineError;
use crate::sampling::Distributions;
use crate::test_case::DataObserver;
use crate::test_case::NativeTestCase;
use vstd::prelude::*;

verus! {

/// A collection is made with the sizes that its caller says, where they are the right way
/// round. The largest number stands for no largest size.
pub proof fn lemma_collections_are_made_as_asked(
    tc: Option<&HegelTestCase>,
    family: &FamilyShared,
    min_size: u64,
    max_size: u64,
    r: Result<HegelCollection, hegel_result_t>,
)
    requires
        exists|c: &mut HegelContext| #[trigger]
            call_ensures(
                hegel_new_collection,
                (c, tc, family, min_size, max_size, false),
                r,
            ),
        is_live(tc, *family),
        min_size <= usize::MAX,
        max_size <= usize::MAX || max_size == u64::MAX,
    ensures
        max_size != u64::MAX && min_size > max_size ==> r == Err::<HegelCollection, hegel_result_t>(
            hegel_result_t::HEGEL_E_INVALID_ARG,
        ),
        max_size == u64::MAX || min_size <= max_size ==> {
            &&& r is Ok
            &&& r->Ok_0.state.min_size == min_size
            &&& max_size == u64::MAX ==> r->Ok_0.state.max_size is None
            &&& max_size != u64::MAX ==> r->Ok_0.state.max_size == Some(max_size as usize)
            &&& r->Ok_0.state.count == 0
            &&& r->Ok_0.state.rejections == 0
            &&& !r->Ok_0.state.force_stop
            &&& !r->Ok_0.busy
        },
{
}

/// Dates and times are the same on either side, field by field.
pub proof fn lemma_dates_are_handed_over(
    d: &hegel_date_t,
    t: &hegel_time_t,
    date: Date,
    time: Time,
    d_back: hegel_date_t,
    t_back: hegel_time_t,
)
    requires
        call_ensures(rust_date, (d,), date),
        call_ensures(rust_time, (t,), time),
        call_ensures(c_date, (date,), d_back),
        call_ensures(c_time, (time,), t_back),
    ensures
        date.year == d.year && date.month == d.month && date.day == d.day,
        time.hour == t.hour && time.minute == t.minute && time.second == t.second && time.nanosecond
            == t.nanosecond,
        d_back == *d,
        t_back == *t,
{
}

/// A caller is told a date within the bounds that it says.
pub proof fn lemma_callers_are_told_dates<D: Distributions, O: DataObserver>(
    tc: Option<&HegelTestCase>,
    family: FamilyShared,
    stream: NativeTestCase<D, O>,
    min: hegel_date_t,
    max: hegel_date_t,
    r: Result<hegel_date_t, hegel_result_t>,
)
    requires
        exists|c: &mut HegelContext, f: &mut FamilyShared, m: &mut NativeTestCase<D, O>| #[trigger]
            call_ensures(hegel_generate_date::<D, O>, (c, tc, f, m, min, max, false), r) && *f
                == family && *m == stream,
        is_live(tc, family),
        stream.structure@.stack.len() < 1000,
    ensures
        ({
            let low = Date { year: min.year, month: min.month, day: min.day };
            let high = Date { year: max.year, month: max.month, day: max.day };
            &&& !is_day(low) || !is_day(high) || !is_no_later(low, high) ==> r == Err::<
                hegel_date_t,
                hegel_result_t,
            >(hegel_result_t::HEGEL_E_INVALID_ARG)
            &&& is_day(low) && is_day(high) && is_no_later(low, high) && has_room_for(
                stream,
                family.core,
                1,
            ) && replays(stream, 0, ValueView::Integer(0)) ==> r is Ok
            &&& r matches Ok(d) ==> {
                let date = Date { year: d.year, month: d.month, day: d.day };
                is_day(date) && is_no_later(low, date) && is_no_later(date, high)
            }
        }),
{
    let low = Date { year: min.year, month: min.month, day: min.day };
    let high = Date { year: max.year, month: max.month, day: max.day };
    lemma_dates_between(low, high, high);
    if r is Ok {
        let d = r->Ok_0;
        lemma_dates_between(low, Date { year: d.year, month: d.month, day: d.day }, high);
    }
}

/// Whether a weight is a positive and finite number, as the bits of a binary64 one.
pub open spec fn is_positive_and_finite(bits: u64) -> bool {
    0 < bits < 0x7ff0_0000_0000_0000
}

/// A state machine that is made has the groups, weights and invariants that its caller
/// says, and as many workers as were drawn, within their bounds. It has a rule, all
/// weights are positive and finite, and no group is the number that says that it is
/// done. With several workers it is noted not to be deterministic, and where that is not
/// allowed it breaks an assumption.
pub proof fn lemma_machines_are_made_as_asked(
    tc: Option<&HegelTestCase>,
    family: FamilyShared,
    after: FamilyShared,
    args: &MachineArgs,
    drawn: Result<i64, EngineError>,
    i: int,
    r: Result<HegelStateMachine, hegel_result_t>,
)
    requires
        exists|c: &mut HegelContext, f: &mut FamilyShared| #[trigger]
            call_ensures(hegel_new_state_machine, (c, tc, f, args, drawn, false), r) && *f == family
                && *final(f) == after,
        is_live(tc, family),
        args.wf(),
    ensures
        r matches Ok(m) ==> {
            &&& args.num_rules > 0
            &&& args.rule_groups is Some && m.spec.rule_groups@ == args.rule_groups->Some_0@
            &&& 0 <= i < m.spec.rule_groups@.len() ==> m.spec.rule_groups@[i] != i64::MIN
            &&& m.spec.rule_weights@.len() == args.num_rules
            &&& args.rule_weights is Some ==> m.spec.rule_weights@ == args.rule_weights->Some_0@
            &&& args.rule_weights is None && 0 <= i < args.num_rules ==> m.spec.rule_weights@[i]
                == 0x3ff0_0000_0000_0000
            &&& 0 <= i < args.num_rules ==> is_positive_and_finite(m.spec.rule_weights@[i])
            &&& m.spec.invariant_always_check@.len() == args.num_invariants
            &&& args.invariant_always_check is Some ==> m.spec.invariant_always_check@
                == args.invariant_always_check->Some_0@
            &&& args.invariant_always_check is None && 0 <= i < args.num_invariants
                ==> !m.spec.invariant_always_check@[i]
            &&& drawn is Ok && m.concurrency == drawn->Ok_0
            &&& 1 <= args.min_concurrency <= m.concurrency <= args.max_concurrency
            &&& m.spec.step_count == args.step_count && args.step_count >= 1
            &&& !(args.max_concurrency > 1 && family.core.reject_concurrent_machine)
            &&& args.max_concurrency > 1 ==> after.core.concurrent_machine
            &&& args.max_concurrency == 1 ==> after == family
        },
        args.num_rules == 0 || args.min_concurrency < 1 || args.max_concurrency
            < args.min_concurrency || args.step_count < 1 ==> r is Err && after == family,
        args.num_rules > 0 && are_texts(args.rule_names) && are_texts(args.invariant_names)
            && args.rule_groups is Some && (forall|j: int|
            0 <= j < args.rule_groups->Some_0@.len() ==> #[trigger] args.rule_groups->Some_0@[j]
                != i64::MIN) && args.rule_weights is None && args.invariant_always_check is None
            && args.num_invariants == 0 && 1 <= args.min_concurrency <= args.max_concurrency
            && args.step_count >= 1 && !(args.max_concurrency > 1
            && family.core.reject_concurrent_machine) && drawn is Ok && args.min_concurrency
            <= drawn->Ok_0 <= args.max_concurrency ==> r is Ok,
{
    if r is Ok {
        let m = r->Ok_0;
        if 0 <= i < m.spec.rule_groups@.len() {
            lemma_done_is_no_group(tc, family.completed, *args, m.spec, i);
        }
    }
    let func = "hegel_new_state_machine"@;
    if let TextsArg::Texts(v) = args.rule_names {
        lemma_no_text_is_wrong(func, "rule_names"@, v@);
    }
    if let TextsArg::Texts(v) = args.invariant_names {
        lemma_no_text_is_wrong(func, "invariant_names"@, v@);
    }
    if args.rule_groups is Some {
        if forall|j: int|
            0 <= j < args.rule_groups->Some_0@.len() ==> #[trigger] args.rule_groups->Some_0@[j]
                != i64::MIN {
            lemma_no_place(args.groups(), HEGEL_STATE_MACHINE_DONE, 0);
        }
    }
}

/// Whether each entry of a list is a text. A list that is missing has no entries.
pub open spec fn are_texts(list: TextsArg) -> bool {
    match list {
        TextsArg::Null(len) => len == 0,
        TextsArg::Texts(v) => forall|j: int| 0 <= j < v@.len() ==> (#[trigger] v@[j])@ is Text,
    }
}

/// Nothing is wrong with a list of texts.
proof fn lemma_no_text_is_wrong(func: Seq<char>, what: Seq<char>, v: Seq<TextArg>)
    ensures
        (forall|j: int| 0 <= j < v.len() ==> (#[trigger] v[j])@ is Text) ==> entries_fault(
            func,
            what,
            texts_view(v),
            0,
        ) is None,
{
    let texts = texts_view(v);
    lemma_some_entry_is_wrong(func, what, texts, 0);
    assert(forall|j: int| 0 <= j < v.len() ==> #[trigger] texts[j] == v[j]@);
}

/// What does not occur has no place.
proof fn lemma_no_place(s: Seq<i64>, x: i64, from: int)
    requires
        0 <= from <= s.len(),
        forall|j: int| from <= j < s.len() ==> #[trigger] s[j] != x,
    ensures
        first_place(s, x, from) == s.len(),
    decreases s.len() - from,
{
    if from < s.len() {
        lemma_no_place(s, x, from + 1);
    }
}

/// A machine is asked what its caller asks, of the worker or the invariant that it says.
/// That it is done is told by the least number, and anything else as it is.
pub proof fn lemma_machines_are_asked_as_said(
    tc: Option<&HegelTestCase>,
    machine: &HegelStateMachine,
    worker: i64,
    group: Result<MachineStep, hegel_result_t>,
    rule: Result<MachineStep, hegel_result_t>,
    rejected: Result<MachineStep, hegel_result_t>,
    checked: Result<MachineStep, hegel_result_t>,
    answer: Result<Option<i64>, EngineError>,
    told: Result<i64, hegel_result_t>,
)
    requires
        exists|c: &mut HegelContext| #[trigger]
            call_ensures(
                hegel_state_machine_next_group,
                (c, tc, false, Some(machine), false),
                group,
            ),
        exists|c: &mut HegelContext| #[trigger]
            call_ensures(
                hegel_state_machine_next_rule,
                (c, tc, false, Some(machine), worker, false),
                rule,
            ),
        exists|c: &mut HegelContext| #[trigger]
            call_ensures(
                hegel_state_machine_rule_rejected,
                (c, tc, false, Some(machine), worker),
                rejected,
            ),
        exists|c: &mut HegelContext| #[trigger]
            call_ensures(
                hegel_state_machine_should_check_invariant,
                (c, tc, false, Some(machine), worker, false),
                checked,
            ),
        exists|c: &mut HegelContext| #[trigger]
            call_ensures(machine_answer, (c, answer), told) && c@ == Seq::<char>::empty(),
        tc is Some && !tc->Some_0.busy,
    ensures
        group == Ok::<MachineStep, hegel_result_t>(MachineStep::NextGroup),
        rule == Ok::<MachineStep, hegel_result_t>(MachineStep::NextRule(worker)),
        rejected == Ok::<MachineStep, hegel_result_t>(MachineStep::RuleRejected(worker)),
        checked == Ok::<MachineStep, hegel_result_t>(MachineStep::ShouldCheckInvariant(worker)),
        answer is Ok <==> told is Ok,
        answer matches Ok(Some(n)) ==> told == Ok::<i64, hegel_result_t>(n),
        answer matches Ok(None) ==> told == Ok::<i64, hegel_result_t>(i64::MIN),
{
}

} // verus!
