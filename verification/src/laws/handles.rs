//! Handles: what their callers are told.
use super::has_room_for;
use super::replays;
use crate::abi::cases::draw_guard;
use crate::abi::cases::hegel_mark_complete;
use crate::abi::cases::translate_ds_error;
use crate::abi::cases::FamilyShared;
use crate::abi::cases::HegelTestCase;
use crate::abi::hegel_result_t;
use crate::abi::strings::translate_construct_error;
use crate::abi::structures::hegel_collection_more;
use crate::abi::structures::hegel_recursion_branch;
use crate::abi::structures::hegel_recursion_leaf;
use crate::abi::structures::HegelCollection;
use crate::abi::structures::HegelRecursion;
use crate::abi::values::hegel_generate_boolean;
use crate::abi::values::hegel_generate_integer;
use crate::abi::HegelContext;
use crate::abi::TextArg;
use crate::choices::Probability;
use crate::choices::ValueView;
use crate::errors::EngineError;
use crate::errors::Status;
use crate::labels::label_from_bytes;
use crate::recursion::RecursionProfile;
use crate::sampling::Distributions;
use crate::test_case::DataObserver;
use crate::test_case::NativeTestCase;
use crate::variables::lemma_consume_takes_one;
use crate::variables::NativeVariables;
use vstd::arithmetic::power2::lemma2_to64;
use vstd::prelude::*;

verus! {

/// Whether a handle may be drawn from.
pub open spec fn is_live(tc: Option<&HegelTestCase>, family: FamilyShared) -> bool {
    tc is Some && !tc->Some_0.busy && !family.completed
}

/// A call is let through on a handle that is there, is not in use and belongs to a test
/// case that is not complete, where there is a place for its result. Otherwise it is
/// told the first of these that is wrong.
pub proof fn lemma_calls_are_let_through(
    func: &str,
    tc: Option<&HegelTestCase>,
    completed: bool,
    out_is_null: bool,
    r: Result<(), hegel_result_t>,
)
    requires
        exists|c: &mut HegelContext| #[trigger]
            call_ensures(draw_guard, (c, func, tc, completed, out_is_null), r),
    ensures
        r is Ok <==> tc is Some && !completed && !tc->Some_0.busy && !out_is_null,
        tc is None ==> r == Err::<(), hegel_result_t>(hegel_result_t::HEGEL_E_INVALID_HANDLE),
        tc is Some && completed ==> r == Err::<(), hegel_result_t>(
            hegel_result_t::HEGEL_E_ALREADY_COMPLETE,
        ),
        tc is Some && !completed && tc->Some_0.busy ==> r == Err::<(), hegel_result_t>(
            hegel_result_t::HEGEL_E_CONCURRENT_USE,
        ),
        tc is Some && !completed && !tc->Some_0.busy && out_is_null ==> r == Err::<
            (),
            hegel_result_t,
        >(hegel_result_t::HEGEL_E_INVALID_ARG),
{
}

/// A draw that failed because the test case ran out of data stops the test, and one that
/// failed because it is invalid breaks an assumption. These are told apart from a wrong
/// argument and from an internal error.
pub proof fn lemma_failed_draws_are_told_apart(e: EngineError, r: hegel_result_t)
    requires
        exists|c: &mut HegelContext| #[trigger]
            call_ensures(translate_ds_error, (c, e), r) && c@ == Seq::<char>::empty(),
    ensures
        r == hegel_result_t::HEGEL_E_STOP_TEST <==> e is Overrun,
        r == hegel_result_t::HEGEL_E_ASSUME <==> e is InvalidTestCase,
        r == hegel_result_t::HEGEL_E_INVALID_ARG <==> e is InvalidArgument,
        r == hegel_result_t::HEGEL_E_INTERNAL <==> e is Internal,
{
}

/// Something that could not be made because of what it was to be made of is a wrong
/// argument, and only an internal error is told as one.
pub proof fn lemma_failed_makings_are_wrong_arguments(e: EngineError, r: hegel_result_t)
    requires
        exists|c: &mut HegelContext| #[trigger]
            call_ensures(translate_construct_error, (c, e), r) && c@ == Seq::<char>::empty(),
    ensures
        e is Internal ==> r == hegel_result_t::HEGEL_E_INTERNAL,
        !(e is Internal) ==> r == hegel_result_t::HEGEL_E_INVALID_ARG,
{
}

/// A caller is told the boolean that is replayed, or the one that is forced.
pub proof fn lemma_callers_are_told_booleans<D: Distributions, O: DataObserver>(
    tc: Option<&HegelTestCase>,
    family: FamilyShared,
    stream: NativeTestCase<D, O>,
    p: Probability,
    written: &str,
    forced: bool,
    has_forced: bool,
    b: bool,
    r: Result<bool, hegel_result_t>,
)
    requires
        exists|c: &mut HegelContext, f: &mut FamilyShared, m: &mut NativeTestCase<D, O>| #[trigger]
            call_ensures(
                hegel_generate_boolean::<D, O>,
                (c, tc, f, m, p, written, forced, has_forced, false),
                r,
            ) && *f == family && *m == stream,
        is_live(tc, family),
        has_room_for(stream, family.core, 1),
        0 < p.numerator < 0x20_0000_0000_0000,
    ensures
        has_forced ==> r == Ok::<bool, hegel_result_t>(forced),
        !has_forced && replays(stream, 0, ValueView::Boolean(b)) ==> r == Ok::<
            bool,
            hegel_result_t,
        >(b),
{
}

/// A caller is told the integer that is replayed where it lies in the range, and in any
/// case one that does. An empty range is refused.
pub proof fn lemma_callers_are_told_integers<D: Distributions, O: DataObserver>(
    tc: Option<&HegelTestCase>,
    family: FamilyShared,
    stream: NativeTestCase<D, O>,
    min: i64,
    max: i64,
    v: i64,
    r: Result<i64, hegel_result_t>,
)
    requires
        exists|c: &mut HegelContext, f: &mut FamilyShared, m: &mut NativeTestCase<D, O>| #[trigger]
            call_ensures(hegel_generate_integer::<D, O>, (c, tc, f, m, min, max, false), r) && *f
                == family && *m == stream,
        is_live(tc, family),
        has_room_for(stream, family.core, 1),
    ensures
        min > max ==> r == Err::<i64, hegel_result_t>(hegel_result_t::HEGEL_E_INVALID_ARG),
        min <= v <= max && replays(stream, 0, ValueView::Integer(v as int)) ==> r == Ok::<
            i64,
            hegel_result_t,
        >(v),
        r matches Ok(n) ==> min <= n <= max,
{
}

/// A caller is told whether a collection goes on as it is replayed, between its bounds,
/// and the element is counted.
pub proof fn lemma_callers_are_told_of_elements<D: Distributions, O: DataObserver>(
    tc: Option<&HegelTestCase>,
    family: FamilyShared,
    stream: NativeTestCase<D, O>,
    before: HegelCollection,
    after: HegelCollection,
    b: bool,
    r: Result<bool, hegel_result_t>,
)
    requires
        exists|
            c: &mut HegelContext,
            f: &mut FamilyShared,
            m: &mut NativeTestCase<D, O>,
            h: &mut HegelCollection,
        | #[trigger]
            call_ensures(hegel_collection_more::<D, O>, (c, tc, f, m, Some(h), false), r) && *f
                == family && *m == stream && *h == before && *final(h) == after,
        is_live(tc, family),
        has_room_for(stream, family.core, 1),
        !before.busy,
        0 < before.state.p_continue.numerator < 0x20_0000_0000_0000,
        !before.state.force_stop,
        before.state.count < usize::MAX,
    ensures
        before.state.count < before.state.min_size ==> r == Ok::<bool, hegel_result_t>(true),
        before.state.min_size <= before.state.count && (before.state.max_size matches Some(max)
            ==> before.state.count < max) && replays(stream, 0, ValueView::Boolean(b)) ==> r
            == Ok::<bool, hegel_result_t>(b),
        before.state.max_size matches Some(max) && before.state.count >= max
            && before.state.min_size <= before.state.count ==> r == Ok::<bool, hegel_result_t>(
            false,
        ),
        r is Ok ==> after.state.count == before.state.count + if r->Ok_0 {
            1int
        } else {
            0
        },
{
}

/// A caller is told whether a recursive value branches as it is replayed, above its
/// largest depth while it is to grow, and that it does not from that depth on.
pub proof fn lemma_callers_are_told_of_branches<D: Distributions, O: DataObserver>(
    tc: Option<&HegelTestCase>,
    family: FamilyShared,
    stream: NativeTestCase<D, O>,
    recursion: HegelRecursion,
    depth: u64,
    profile: RecursionProfile,
    b: bool,
    r: Result<bool, hegel_result_t>,
)
    requires
        exists|
            c: &mut HegelContext,
            f: &mut FamilyShared,
            m: &mut NativeTestCase<D, O>,
            h: &mut HegelRecursion,
        | #[trigger]
            call_ensures(
                hegel_recursion_branch::<D, O>,
                (c, tc, f, m, Some(h), depth, profile, false),
                r,
            ) && *f == family && *m == stream && *h == recursion,
        is_live(tc, family),
        has_room_for(stream, family.core, 1),
        recursion.state.attempt == 0,
        recursion.state.target >= 2,
        depth <= profile.boundary_depth,
        0 < profile.boundary_probability.numerator < 0x20_0000_0000_0000,
    ensures
        depth < recursion.state.max_depth && replays(stream, 0, ValueView::Boolean(b)) ==> r
            == Ok::<bool, hegel_result_t>(b),
        depth >= recursion.state.max_depth ==> r == Ok::<bool, hegel_result_t>(false),
{
    lemma2_to64();
}

/// A leaf is counted where there is budget for it, and else its caller is told to retry.
pub proof fn lemma_callers_are_told_of_leaves(
    tc: Option<&HegelTestCase>,
    family: &FamilyShared,
    before: HegelRecursion,
    after: HegelRecursion,
    r: hegel_result_t,
)
    requires
        exists|c: &mut HegelContext, h: &mut HegelRecursion| #[trigger]
            call_ensures(hegel_recursion_leaf, (c, tc, family, Some(h)), r) && *h == before
                && *final(h) == after,
        is_live(tc, *family),
    ensures
        before.state.leaves < before.state.max_leaves ==> r == hegel_result_t::HEGEL_OK
            && after.state.leaves == before.state.leaves + 1,
        before.state.leaves >= before.state.max_leaves ==> r == hegel_result_t::HEGEL_E_RETRY
            && after.state.leaves == before.state.leaves,
{
}

/// A test case is completed with the status that its caller says, zero for valid, one
/// for invalid, two for out of data and three for a failure, unless a handle has
/// completed it before. A handle completes it once, and another status is refused.
pub proof fn lemma_completion_is_what_is_said(
    before: HegelTestCase,
    after: HegelTestCase,
    family: FamilyShared,
    new_family: FamilyShared,
    status: u32,
    origin: &TextArg,
    r: hegel_result_t,
)
    requires
        exists|c: &mut HegelContext, h: &mut HegelTestCase, f: &mut FamilyShared| #[trigger]
            call_ensures(hegel_mark_complete, (c, Some(h), f, status, origin), r) && *h == before
                && *final(h) == after && *f == family && *final(f) == new_family,
        family.core.conclusion is None,
    ensures
        before.completed ==> r == hegel_result_t::HEGEL_E_ALREADY_COMPLETE && after == before
            && new_family == family,
        !before.completed ==> {
            &&& r == hegel_result_t::HEGEL_OK <==> status <= 3 && !(status == 3
                && origin is NotUtf8)
            &&& r != hegel_result_t::HEGEL_OK ==> r == hegel_result_t::HEGEL_E_INVALID_ARG && after
                == before && new_family == family
            &&& r == hegel_result_t::HEGEL_OK ==> after.completed && new_family.completed
            &&& r == hegel_result_t::HEGEL_OK && family.completed ==> new_family == family
            &&& r == hegel_result_t::HEGEL_OK && !family.completed ==> {
                &&& new_family.core.conclusion is Some
                &&& status == 0 <==> new_family.core.conclusion->Some_0.0 == Status::Valid
                &&& status == 1 <==> new_family.core.conclusion->Some_0.0 == Status::Invalid
                &&& status == 2 <==> new_family.core.conclusion->Some_0.0 == Status::EarlyStop
                &&& status == 3 <==> new_family.core.conclusion->Some_0.0 == Status::Interesting
                &&& status == 3 ==> new_family.core.conclusion->Some_0.1 is Some
                &&& status == 3 ==> (*origin matches TextArg::Text(t) ==> t@
                    == new_family.core.conclusion->Some_0.1->Some_0@)
                &&& family.reporter is Some ==> new_family.reported == Some(status != 3)
            }
        },
{
}

/// A variable that is added to a pool is active, after those that were. One that is
/// consumed no longer is, and the others still are, in their order.
pub proof fn lemma_pools_hold_what_was_not_consumed(
    before: NativeVariables,
    added: NativeVariables,
    consumed: NativeVariables,
    id: i64,
    active: Vec<i64>,
    active_added: Vec<i64>,
    active_consumed: Vec<i64>,
    empty: NativeVariables,
    active_empty: Vec<i64>,
)
    requires
        exists|m: &mut NativeVariables| #[trigger]
            call_ensures(NativeVariables::add, (m, id), ()) && *m == before && *final(m) == added,
        exists|m: &mut NativeVariables| #[trigger]
            call_ensures(NativeVariables::consume, (m, id), ()) && *m == before && *final(m)
                == consumed,
        call_ensures(NativeVariables::active, (&before,), active),
        call_ensures(NativeVariables::active, (&added,), active_added),
        call_ensures(NativeVariables::active, (&consumed,), active_consumed),
        call_ensures(NativeVariables::new, (), empty),
        call_ensures(NativeVariables::active, (&empty,), active_empty),
        before.variables().no_duplicates(),
    ensures
        !before.removed().contains(id) ==> active_added@ == active@.push(id),
        active_consumed@ == active@.filter(|x: i64| x != id),
        active_empty@.len() == 0,
{
    lemma_consume_takes_one(before.variables(), before.removed(), id);
    let v = before.variables().push(id);
    assert(v.drop_last() =~= before.variables());
}

/// The label of a name is worked out byte by byte: one byte more goes into the label of
/// the rest by exclusive or, and the outcome is multiplied. The label of no bytes at all
/// is that of the hash.
pub proof fn lemma_labels_take_one_byte_more(
    name: &[u8],
    longer: &[u8],
    byte: u8,
    r: u64,
    s: u64,
)
    requires
        call_ensures(label_from_bytes, (name,), r),
        call_ensures(label_from_bytes, (longer,), s),
        longer@ == name@.push(byte),
    ensures
        name@.len() == 0 ==> r == 0xcbf2_9ce4_8422_2325,
        s == (r ^ (byte as u64)).wrapping_mul(0x100_0000_01b3),
{
    assert(longer@.drop_last() =~= name@);
}

} // verus!
