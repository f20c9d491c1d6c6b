//! Answers: what callers are told of rejections, attempts, moments, strings, labels and
//! failures.
use super::handles::is_live;
use super::has_room_for;
use super::replays;
use super::special::is_time_of_day;
use super::special::since_midnight;
use super::texts::is_in_ranges;
use super::texts::lies_within;
use crate::abi::cases::hegel_label_combine;
use crate::abi::cases::hegel_label_from_name;
use crate::abi::cases::size_arg;
use crate::abi::cases::tc_guard;
use crate::abi::cases::FamilyShared;
use crate::abi::cases::HegelTestCase;
use crate::abi::hegel_result_t;
use crate::abi::runs::blob_outcome;
use crate::abi::runs::hegel_failure_origin;
use crate::abi::runs::hegel_failure_reproduction_blob;
use crate::abi::runs::hegel_test_case_from_blob;
use crate::abi::runs::HegelFailure;
use crate::abi::settings::HegelSettings;
use crate::abi::strings::HegelStringGenerator;
use crate::abi::structures::hegel_collection_reject;
use crate::abi::structures::hegel_new_recursion;
use crate::abi::structures::hegel_recursion_finish;
use crate::abi::structures::hegel_recursion_retry;
use crate::abi::structures::HegelCollection;
use crate::abi::structures::HegelRecursion;
use crate::abi::values::hegel_datetime_t;
use crate::abi::values::hegel_generate_datetime;
use crate::abi::values::hegel_generate_string;
use crate::abi::values::start_string_draw;
use crate::abi::HegelContext;
use crate::abi::TextArg;
use crate::abi::TextArgView;
use crate::choices::ValueView;
use crate::civil::Time;
use crate::draws::StringSpec;
use crate::errors::EngineError;
use crate::intervalsets::ranges_contain;
use crate::labels::label_from_bytes;
use crate::recursion::RecursionProfile;
use crate::sampling::Distributions;
use crate::test_case::DataObserver;
use crate::test_case::NativeTestCase;
use crate::text::is_scalar;
use crate::text::lemma_text_keeps_scalars;
use vstd::prelude::*;

verus! {

/// A caller that takes an element back is told that the test case broke an assumption
/// exactly where more than three rejections, and more than twice as many as elements, left
/// the collection too short. The collection has one element less, and one rejection more.
pub proof fn lemma_callers_are_told_of_rejections<D: Distributions, O: DataObserver>(
    tc: Option<&HegelTestCase>,
    family: FamilyShared,
    stream: NativeTestCase<D, O>,
    before: HegelCollection,
    after: HegelCollection,
    why: &TextArg,
    r: Result<(), hegel_result_t>,
)
    requires
        exists|
            c: &mut HegelContext,
            f: &mut FamilyShared,
            m: &mut NativeTestCase<D, O>,
            h: &mut HegelCollection,
        | #[trigger]
            call_ensures(hegel_collection_reject::<D, O>, (c, tc, f, m, Some(h), why), r) && *f
                == family && *m == stream && *h == before && *final(h) == after,
        is_live(tc, family),
        before.state.rejections < usize::MAX,
    ensures
        why@ is NotUtf8 ==> r == Err::<(), hegel_result_t>(hegel_result_t::HEGEL_E_INVALID_ARG)
            && after == before,
        !(why@ is NotUtf8) && before.busy ==> r == Err::<(), hegel_result_t>(
            hegel_result_t::HEGEL_E_CONCURRENT_USE,
        ) && after == before,
        !(why@ is NotUtf8) && !before.busy && before.state.count == 0 ==> r == Err::<
            (),
            hegel_result_t,
        >(hegel_result_t::HEGEL_E_INTERNAL),
        !(why@ is NotUtf8) && !before.busy && before.state.count > 0 ==> {
            let many = after.state.rejections > 3 && after.state.rejections > 2
                * after.state.count;
            &&& after.state.count == before.state.count - 1
            &&& after.state.rejections == before.state.rejections + 1
            &&& r == if many && after.state.count < after.state.min_size {
                Err::<(), hegel_result_t>(hegel_result_t::HEGEL_E_ASSUME)
            } else {
                Ok(())
            }
        },
{
}

/// A caller that begins a recursive value is told one that aims at as many leaves as are
/// replayed, where it is to be large, and at one leaf where it is not.
pub proof fn lemma_callers_begin_recursive_values<D: Distributions, O: DataObserver>(
    tc: Option<&HegelTestCase>,
    family: FamilyShared,
    stream: NativeTestCase<D, O>,
    max_depth: u64,
    max_leaves: u64,
    r: Result<HegelRecursion, hegel_result_t>,
)
    requires
        exists|c: &mut HegelContext, f: &mut FamilyShared, m: &mut NativeTestCase<D, O>| #[trigger]
            call_ensures(
                hegel_new_recursion::<D, O>,
                (c, tc, f, m, max_depth, max_leaves, false),
                r,
            ) && *f == family && *m == stream,
        is_live(tc, family),
        has_room_for(stream, family.core, 2),
        replays(stream, 0, ValueView::Boolean(false)) || max_leaves < 2,
    ensures
        r is Ok,
        r->Ok_0.state.target == 1,
        r->Ok_0.state.max_depth == max_depth,
        r->Ok_0.state.max_leaves == max_leaves,
        r->Ok_0.state.attempt == 0,
        r->Ok_0.state.leaves == 0,
{
}

/// A caller that gives an attempt at a recursive value up is told that the test case broke
/// an assumption after eight attempts, and before that the next attempt begins without
/// leaves.
pub proof fn lemma_callers_give_attempts_up<D: Distributions, O: DataObserver>(
    tc: Option<&HegelTestCase>,
    family: FamilyShared,
    stream: NativeTestCase<D, O>,
    before: HegelRecursion,
    after: HegelRecursion,
    r: Result<(), hegel_result_t>,
)
    requires
        exists|
            c: &mut HegelContext,
            f: &mut FamilyShared,
            m: &mut NativeTestCase<D, O>,
            h: &mut HegelRecursion,
        | #[trigger]
            call_ensures(hegel_recursion_retry::<D, O>, (c, tc, f, m, Some(h)), r) && *f == family
                && *m == stream && *h == before && *final(h) == after,
        is_live(tc, family),
        before.state.wf(),
    ensures
        r == if before.state.attempt < 8 {
            Ok::<(), hegel_result_t>(())
        } else {
            Err(hegel_result_t::HEGEL_E_ASSUME)
        },
        r is Ok ==> after.state.attempt == before.state.attempt + 1,
        after.state.leaves == 0,
        after.state.target == before.state.target,
{
}

/// A caller that finishes an attempt at a recursive value is told to retry where it does
/// not stand, which happens at most twice. Otherwise the value keeps its leaves.
pub proof fn lemma_callers_finish_attempts<D: Distributions, O: DataObserver>(
    tc: Option<&HegelTestCase>,
    family: &FamilyShared,
    stream: NativeTestCase<D, O>,
    before: HegelRecursion,
    after: HegelRecursion,
    profile: RecursionProfile,
    r: hegel_result_t,
)
    requires
        exists|c: &mut HegelContext, m: &mut NativeTestCase<D, O>, h: &mut HegelRecursion| #[trigger]
            call_ensures(
                hegel_recursion_finish::<D, O>,
                (c, tc, family, m, Some(h), profile),
                r,
            ) && *m == stream && *h == before && *final(h) == after,
        is_live(tc, *family),
        before.state.wf(),
    ensures
        r == hegel_result_t::HEGEL_OK || r == hegel_result_t::HEGEL_E_RETRY,
        before.state.reprices >= 2 ==> r == hegel_result_t::HEGEL_OK,
        r == hegel_result_t::HEGEL_OK ==> after.state.leaves == before.state.leaves
            && after.state.reprices == before.state.reprices,
        r == hegel_result_t::HEGEL_E_RETRY ==> after.state.leaves == 0 && after.state.reprices
            == before.state.reprices + 1,
{
}

/// A handle that is not there is no handle, and one that is in use may not be used. Where
/// its test case is complete, it is told that first.
pub proof fn lemma_handles_are_let_through(
    func: &str,
    tc: Option<&HegelTestCase>,
    completed: bool,
    r: Result<(), hegel_result_t>,
)
    requires
        exists|c: &mut HegelContext| #[trigger]
            call_ensures(tc_guard, (c, func, tc, completed), r),
    ensures
        r is Ok <==> tc is Some && !completed && !tc->Some_0.busy,
        tc is None ==> r == Err::<(), hegel_result_t>(hegel_result_t::HEGEL_E_INVALID_HANDLE),
        tc is Some && !completed && tc->Some_0.busy ==> r == Err::<(), hegel_result_t>(
            hegel_result_t::HEGEL_E_CONCURRENT_USE,
        ),
{
}

/// A caller is told a moment of a time of day within the bounds that it says.
pub proof fn lemma_callers_are_told_moments<D: Distributions, O: DataObserver>(
    tc: Option<&HegelTestCase>,
    family: FamilyShared,
    stream: NativeTestCase<D, O>,
    min: hegel_datetime_t,
    max: hegel_datetime_t,
    r: Result<hegel_datetime_t, hegel_result_t>,
)
    requires
        exists|c: &mut HegelContext, f: &mut FamilyShared, m: &mut NativeTestCase<D, O>| #[trigger]
            call_ensures(hegel_generate_datetime::<D, O>, (c, tc, f, m, min, max, false), r) && *f
                == family && *m == stream,
        is_live(tc, family),
    ensures
        r matches Ok(v) ==> {
            let low = time_said(min);
            let time = time_said(v);
            let high = time_said(max);
            &&& is_time_of_day(time)
            &&& v.date == min.date ==> since_midnight(low) <= since_midnight(time)
            &&& v.date == max.date ==> since_midnight(time) <= since_midnight(high)
        },
        !is_time_of_day(time_said(min)) || !is_time_of_day(time_said(max)) ==> r is Err
            && r->Err_0 == hegel_result_t::HEGEL_E_INVALID_ARG,
{
}

/// The time of day that a caller says.
pub open spec fn time_said(v: hegel_datetime_t) -> Time {
    Time {
        hour: v.time.hour,
        minute: v.time.minute,
        second: v.time.second,
        nanosecond: v.time.nanosecond,
    }
}

/// A caller is told the text that is replayed, where its length is allowed and it is
/// written in the alphabet, and any other string as it was drawn.
pub proof fn lemma_callers_are_told_strings<D: Distributions, O: DataObserver>(
    tc: Option<&HegelTestCase>,
    family: FamilyShared,
    stream: NativeTestCase<D, O>,
    generator: HegelStringGenerator,
    drawn: Result<String, EngineError>,
    ranges: Seq<(u32, u32)>,
    v: Seq<u32>,
    r: Result<String, hegel_result_t>,
)
    requires
        exists|
            c: &mut HegelContext,
            f: &mut FamilyShared,
            m: &mut NativeTestCase<D, O>,
            g: &mut HegelStringGenerator,
        | #[trigger]
            call_ensures(hegel_generate_string::<D, O>, (c, tc, f, m, Some(g), drawn, false), r)
                && *f == family && *m == stream && *g == generator,
        is_live(tc, family),
        generator.spec.wf(),
        has_room_for(stream, family.core, 1),
        forall|i: int| 0 <= i < v.len() ==> {
            ||| #[trigger] v[i] < 0xd800
            ||| 0xe000 <= v[i] < 0x11_0000
        },
    ensures
        generator.spec matches StringSpec::Text { intervals, min_size, max_size } ==> (intervals@
            == ranges && replays(stream, 0, ValueView::String(v)) && min_size <= v.len()
            <= max_size && lies_within(ranges, v) ==> {
            &&& r is Ok
            &&& r->Ok_0@.len() == v.len()
            &&& forall|i: int| 0 <= i < v.len() ==> #[trigger] r->Ok_0@[i] == v[i] as char
        }),
        !(generator.spec is Text) ==> {
            &&& drawn is Ok ==> r == Ok::<String, hegel_result_t>(drawn->Ok_0)
            &&& drawn is Err ==> r is Err && (r->Err_0 == hegel_result_t::HEGEL_E_STOP_TEST
                <==> drawn->Err_0 is Overrun)
        },
{
    if lies_within(ranges, v) {
        assert forall|i: int| 0 <= i < v.len() implies ranges_contain(ranges, #[trigger] v[i] as int)
            by {
            assert(is_in_ranges(ranges, v[i]));
        }
    }
    assert forall|i: int| 0 <= i < v.len() implies is_scalar(#[trigger] v[i]) by {}
    lemma_text_keeps_scalars(v);
}

/// Texts are drawn by the stream alone. Other strings are asked for between the two halves
/// of their draw, in a span that is open until then.
pub proof fn lemma_strings_are_asked_for<D: Distributions, O: DataObserver>(
    tc: Option<&HegelTestCase>,
    family: FamilyShared,
    stream: NativeTestCase<D, O>,
    after: NativeTestCase<D, O>,
    generator: &HegelStringGenerator,
    r: Result<bool, hegel_result_t>,
)
    requires
        exists|c: &mut HegelContext, f: &mut FamilyShared, m: &mut NativeTestCase<D, O>| #[trigger]
            call_ensures(
                start_string_draw::<D, O>,
                (c, tc, f, m, Some(generator), false),
                r,
            ) && *f == family && *m == stream && *final(m) == after,
        is_live(tc, family),
    ensures
        r == Ok::<bool, hegel_result_t>(!(generator.spec is Text)),
        generator.spec is Text ==> after == stream,
        after.nodes@ == stream.nodes@,
{
}

/// The label of a name is that of its bytes, and a name that is missing has none.
pub proof fn lemma_names_have_labels(
    name: Option<&[u8]>,
    bytes: &[u8],
    out_is_null: bool,
    label: u64,
    r: Result<u64, hegel_result_t>,
)
    requires
        exists|c: &mut HegelContext| #[trigger]
            call_ensures(hegel_label_from_name, (c, name, out_is_null), r),
        call_ensures(label_from_bytes, (bytes,), label),
    ensures
        name is None || out_is_null ==> r == Err::<u64, hegel_result_t>(
            hegel_result_t::HEGEL_E_INVALID_ARG,
        ),
        name is Some && !out_is_null ==> r is Ok && (name->Some_0@ == bytes@ ==> r->Ok_0 == label),
{
}

/// The labels that are to be combined are all that are said, and none may be missing
/// where there are any.
pub proof fn lemma_labels_are_taken_as_said(
    labels: Option<Vec<u64>>,
    len: usize,
    out_is_null: bool,
    r: Result<Vec<u64>, hegel_result_t>,
)
    requires
        exists|c: &mut HegelContext| #[trigger]
            call_ensures(hegel_label_combine, (c, labels, len, out_is_null), r),
    ensures
        (labels is None && len > 0) || out_is_null ==> r is Err && r->Err_0
            == hegel_result_t::HEGEL_E_INVALID_ARG,
        !out_is_null && len == 0 ==> r is Ok && r->Ok_0@.len() == 0,
        !out_is_null && len > 0 && labels is Some ==> r is Ok && r->Ok_0@ == labels->Some_0@,
{
}

/// A size that a caller says is that size, or the largest there is.
pub proof fn lemma_sizes_are_taken_as_said(v: u64, r: usize)
    requires
        call_ensures(size_arg, (v,), r),
    ensures
        r <= v,
        v <= usize::MAX ==> r == v,
        r < v ==> r == usize::MAX,
{
}

/// A failure that is replayed is the text that its caller says, and needs settings and a
/// place for the test case. A text that says no failure is a wrong argument.
pub proof fn lemma_failures_are_read_back(
    settings: Option<&HegelSettings>,
    blob: &TextArg,
    out_is_null: bool,
    r: Result<String, hegel_result_t>,
    decoded: bool,
    code: hegel_result_t,
)
    requires
        exists|c: &mut HegelContext| #[trigger]
            call_ensures(hegel_test_case_from_blob, (c, settings, blob, out_is_null), r),
        exists|c: &mut HegelContext| #[trigger] call_ensures(blob_outcome, (c, decoded), code),
    ensures
        r is Ok <==> settings is Some && !out_is_null && blob@ is Text,
        r matches Ok(t) ==> blob@ == TextArgView::Text(t@),
        settings is None ==> r == Err::<String, hegel_result_t>(
            hegel_result_t::HEGEL_E_INVALID_HANDLE,
        ),
        settings is Some && r is Err ==> r == Err::<String, hegel_result_t>(
            hegel_result_t::HEGEL_E_INVALID_ARG,
        ),
        decoded ==> code == hegel_result_t::HEGEL_OK,
        !decoded ==> code == hegel_result_t::HEGEL_E_INVALID_ARG,
{
}

/// A failure says where it came from and, if it has one, the text to replay it with.
pub proof fn lemma_failures_say_what_they_are(
    f: Option<&HegelFailure>,
    out_is_null: bool,
    origin: Result<String, hegel_result_t>,
    blob: Result<Option<String>, hegel_result_t>,
)
    requires
        exists|c: &mut HegelContext| #[trigger]
            call_ensures(hegel_failure_origin, (c, f, out_is_null), origin),
        exists|c: &mut HegelContext| #[trigger]
            call_ensures(hegel_failure_reproduction_blob, (c, f, out_is_null), blob),
    ensures
        origin is Ok <==> f is Some && !out_is_null,
        blob is Ok <==> f is Some && !out_is_null,
        origin matches Ok(t) ==> t@ == f->Some_0@.origin,
        blob matches Ok(t) ==> (t is Some <==> f->Some_0@.blob is Some) && (t matches Some(text)
            ==> text@ == f->Some_0@.blob->Some_0),
        f is None ==> origin->Err_0 == hegel_result_t::HEGEL_E_INVALID_HANDLE && blob->Err_0
            == hegel_result_t::HEGEL_E_INVALID_HANDLE,
{
}

} // verus!
