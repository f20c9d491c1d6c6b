//! Callers: what they are told of bytes, times, identifiers and addresses, and what their
//! handles do.
use super::handles::is_live;
use super::has_room_for;
use super::numbers::digits_value;
use super::numbers::lemma_decimal_reads_back;
use super::replays;
use super::special::are_halves;
use super::special::is_time_of_day;
use super::special::lemma_bytes_of_halves;
use super::special::since_midnight;
use crate::abi::cases::Attribution;
use crate::abi::cases::FamilyShared;
use crate::abi::cases::hegel_start_span;
use crate::abi::cases::hegel_stop_span;
use crate::abi::cases::hegel_test_case_block;
use crate::abi::cases::hegel_test_case_clone;
use crate::abi::cases::hegel_test_case_is_nondeterministic;
use crate::abi::cases::hegel_test_case_set_worker;
use crate::abi::cases::HegelTestCase;
use crate::abi::cases::thousandths;
use crate::abi::hegel_result_t;
use crate::abi::HegelContext;
use crate::abi::values::hegel_generate_bytes;
use crate::abi::values::hegel_generate_bytes_result_t;
use crate::abi::values::hegel_generate_integer_big;
use crate::abi::values::hegel_generate_ipv4;
use crate::abi::values::hegel_generate_ipv6;
use crate::abi::values::hegel_generate_time;
use crate::abi::values::hegel_generate_uuid;
use crate::abi::values::hegel_time_t;
use crate::bignum::BigInt;
use crate::choices::ValueView;
use crate::civil::Time;
use crate::decimal::decimal;
use crate::decimal::digit;
use crate::decimal::signed_decimal;
use crate::errors::EngineError;
use crate::sampling::Distributions;
use crate::signed_bytes::from_signed_bytes_le;
use crate::signed_bytes::lemma_sign_fill_keeps_the_value;
use crate::signed_bytes::sign_filled;
use crate::signed_bytes::signed_value;
use crate::special::uuid_bytes;
use crate::test_case::DataObserver;
use crate::test_case::NativeTestCase;
use vstd::prelude::*;

verus! {

/// A caller is told the bytes that are replayed, where their length is allowed, and bytes
/// of an allowed length in any case.
pub proof fn lemma_callers_are_told_bytes<D: Distributions, O: DataObserver>(
    tc: Option<&HegelTestCase>,
    family: FamilyShared,
    stream: NativeTestCase<D, O>,
    min: u64,
    max: u64,
    v: Seq<u8>,
    r: Result<hegel_generate_bytes_result_t, hegel_result_t>,
)
    requires
        exists|c: &mut HegelContext, f: &mut FamilyShared, m: &mut NativeTestCase<D, O>| #[trigger]
            call_ensures(hegel_generate_bytes::<D, O>, (c, tc, f, m, min, max, false), r) && *f
                == family && *m == stream,
        is_live(tc, family),
        has_room_for(stream, family.core, 1),
        min <= usize::MAX,
        max <= usize::MAX,
    ensures
        min > max ==> r is Err && r->Err_0 == hegel_result_t::HEGEL_E_INVALID_ARG,
        min <= v.len() <= max && replays(stream, 0, ValueView::Bytes(v)) ==> r is Ok
            && r->Ok_0.data@ == v,
{
}

/// A caller is told a time within the bounds that it says, which lies as many nanoseconds
/// after the earliest as is replayed.
pub proof fn lemma_callers_are_told_times<D: Distributions, O: DataObserver>(
    tc: Option<&HegelTestCase>,
    family: FamilyShared,
    stream: NativeTestCase<D, O>,
    min: hegel_time_t,
    max: hegel_time_t,
    v: int,
    r: Result<hegel_time_t, hegel_result_t>,
)
    requires
        exists|c: &mut HegelContext, f: &mut FamilyShared, m: &mut NativeTestCase<D, O>| #[trigger]
            call_ensures(hegel_generate_time::<D, O>, (c, tc, f, m, min, max, false), r) && *f
                == family && *m == stream,
        is_live(tc, family),
        has_room_for(stream, family.core, 1),
    ensures
        ({
            let low = Time {
                hour: min.hour,
                minute: min.minute,
                second: min.second,
                nanosecond: min.nanosecond,
            };
            let high = Time {
                hour: max.hour,
                minute: max.minute,
                second: max.second,
                nanosecond: max.nanosecond,
            };
            &&& !is_time_of_day(low) || !is_time_of_day(high) || since_midnight(low)
                > since_midnight(high) ==> r is Err && r->Err_0
                == hegel_result_t::HEGEL_E_INVALID_ARG
            &&& is_time_of_day(low) && is_time_of_day(high) && replays(
                stream,
                0,
                ValueView::Integer(v),
            ) && 0 <= v <= since_midnight(high) - since_midnight(low) ==> r is Ok
            &&& r matches Ok(t) ==> {
                let time = Time {
                    hour: t.hour,
                    minute: t.minute,
                    second: t.second,
                    nanosecond: t.nanosecond,
                };
                &&& is_time_of_day(time)
                &&& since_midnight(low) <= since_midnight(time) <= since_midnight(high)
                &&& replays(stream, 0, ValueView::Integer(v)) && 0 <= v <= since_midnight(high)
                    - since_midnight(low) ==> since_midnight(time) == since_midnight(low) + v
            }
        }),
{
}

/// A caller is told a UUID of sixteen bytes. Where it asks for a version, the version is
/// in it, and a version that does not fit is refused.
pub proof fn lemma_callers_are_told_uuids<D: Distributions, O: DataObserver>(
    tc: Option<&HegelTestCase>,
    family: FamilyShared,
    stream: NativeTestCase<D, O>,
    version: u8,
    has_version: bool,
    r: Result<Vec<u8>, hegel_result_t>,
)
    requires
        exists|c: &mut HegelContext, f: &mut FamilyShared, m: &mut NativeTestCase<D, O>| #[trigger]
            call_ensures(
                hegel_generate_uuid::<D, O>,
                (c, tc, f, m, version, has_version, false),
                r,
            ) && *f == family && *m == stream,
        is_live(tc, family),
        stream.structure@.stack.len() < 1000,
    ensures
        has_version && version > 15 ==> r is Err && r->Err_0 == hegel_result_t::HEGEL_E_INVALID_ARG,
        r is Ok ==> r->Ok_0@.len() == 16,
        r is Ok && has_version ==> r->Ok_0@[6] / 16 == version && r->Ok_0@[8] / 64 == 2,
{
    if r is Ok {
        let v = if has_version {
            Some(version)
        } else {
            None
        };
        assert forall|high: u64, low: u64|
            v matches Some(x) ==> x <= 15 implies are_halves(
            #[trigger] uuid_bytes(high, low, v),
            high as int,
            low as int,
            v,
        ) by {
            lemma_bytes_of_halves(high, low, v);
        }
    }
}

/// A caller is handed an address as it was drawn, in four bytes or in sixteen. Another
/// number of bytes is an internal error.
pub proof fn lemma_callers_are_told_addresses(
    tc: Option<&HegelTestCase>,
    drawn: Result<Vec<u8>, EngineError>,
    four: Result<Vec<u8>, hegel_result_t>,
    six: Result<Vec<u8>, hegel_result_t>,
)
    requires
        exists|c: &mut HegelContext| #[trigger]
            call_ensures(hegel_generate_ipv4, (c, tc, false, drawn, false), four),
        exists|c: &mut HegelContext| #[trigger]
            call_ensures(hegel_generate_ipv6, (c, tc, false, drawn, false), six),
        tc is Some && !tc->Some_0.busy,
    ensures
        four is Ok <==> drawn is Ok && drawn->Ok_0@.len() == 4,
        six is Ok <==> drawn is Ok && drawn->Ok_0@.len() == 16,
        four is Ok ==> four->Ok_0 == drawn->Ok_0,
        six is Ok ==> six->Ok_0 == drawn->Ok_0,
{
}

/// A caller is told an integer between the bounds that it says, in two's complement, the
/// least significant byte first, and it is the one that is replayed where that lies
/// between them.
pub proof fn lemma_callers_are_told_great_integers<D: Distributions, O: DataObserver>(
    tc: Option<&HegelTestCase>,
    family: FamilyShared,
    stream: NativeTestCase<D, O>,
    min: &[u8],
    max: &[u8],
    cap: usize,
    low: BigInt,
    high: BigInt,
    buffer: &[u8],
    told: BigInt,
    v: int,
    r: Result<(Vec<u8>, usize), hegel_result_t>,
)
    requires
        exists|c: &mut HegelContext, f: &mut FamilyShared, m: &mut NativeTestCase<D, O>| #[trigger]
            call_ensures(
                hegel_generate_integer_big::<D, O>,
                (c, tc, f, m, Some(min), Some(max), cap, false),
                r,
            ) && *f == family && *m == stream,
        call_ensures(from_signed_bytes_le, (min,), low),
        call_ensures(from_signed_bytes_le, (max,), high),
        call_ensures(from_signed_bytes_le, (buffer,), told),
        is_live(tc, family),
        has_room_for(stream, family.core, 1),
        min@.len() > 0,
        max@.len() > 0,
        r is Ok,
        buffer@ == r->Ok_0.0@,
    ensures
        low@ <= told@ <= high@,
        replays(stream, 0, ValueView::Integer(v)) && low@ <= v <= high@ ==> told@ == v,
        r->Ok_0.0@.len() == cap,
        0 < r->Ok_0.1 <= cap,
{
    assert forall|bytes: Seq<u8>| 1 <= bytes.len() <= cap implies #[trigger]
        signed_value(bytes) == signed_value(
        sign_filled(bytes, cap as nat),
    ) && sign_filled(bytes, cap as nat).len() == cap by {
        lemma_sign_fill_keeps_the_value(bytes, cap as nat);
    }
}

/// A span is opened with the label that a caller says, and closed as it says, kept or
/// discarded. What was drawn stays as it is.
pub proof fn lemma_callers_open_and_close_spans<D: Distributions, O: DataObserver>(
    tc: Option<&HegelTestCase>,
    family: FamilyShared,
    stream: NativeTestCase<D, O>,
    opened: NativeTestCase<D, O>,
    closed: NativeTestCase<D, O>,
    label: u64,
    discard: bool,
    r: hegel_result_t,
    s: hegel_result_t,
)
    requires
        exists|c: &mut HegelContext, f: &mut FamilyShared, m: &mut NativeTestCase<D, O>| #[trigger]
            call_ensures(hegel_start_span::<D, O>, (c, tc, f, m, label), r) && *f == family && *m
                == stream && *final(m) == opened,
        exists|c: &mut HegelContext, m: &mut NativeTestCase<D, O>| #[trigger]
            call_ensures(hegel_stop_span::<D, O>, (c, tc, &family, m, discard), s) && *m == opened
                && *final(m) == closed,
        is_live(tc, family),
        stream.structure@.stack.len() < 1000,
        stream.structure@.spans.len() < usize::MAX,
    ensures
        r == hegel_result_t::HEGEL_OK && s == hegel_result_t::HEGEL_OK,
        opened.nodes@ == stream.nodes@ && closed.nodes@ == stream.nodes@,
        opened.structure@.stack.len() == stream.structure@.stack.len() + 1,
        closed.structure@.stack == stream.structure@.stack,
        closed.structure@.spans.len() == stream.structure@.spans.len() + 1,
        closed.structure@.spans.last().label == label,
        closed.structure@.spans.last().discarded == discard,
        closed.structure@.spans.last().start == stream.nodes@.len() as usize,
        closed.structure@.spans.last().end == stream.nodes@.len() as usize,
{
    assert(closed.structure@.stack =~= stream.structure@.stack);
}

/// A handle is attributed to the worker that its caller says, which is an index, and a
/// handle onto the same stream or onto a clone of it to the same worker. None of these is
/// in use or complete.
pub proof fn lemma_handles_are_attributed(
    before: HegelTestCase,
    after: HegelTestCase,
    worker: i64,
    r: hegel_result_t,
    block: Result<HegelTestCase, hegel_result_t>,
)
    requires
        exists|c: &mut HegelContext, h: &mut HegelTestCase| #[trigger]
            call_ensures(hegel_test_case_set_worker, (c, Some(h), worker), r) && *h == before
                && *final(h) == after,
        exists|c: &mut HegelContext| #[trigger]
            call_ensures(hegel_test_case_block, (c, Some(&after), false), block),
    ensures
        worker >= 0 ==> r == hegel_result_t::HEGEL_OK && after.worker == worker,
        worker < 0 ==> r == hegel_result_t::HEGEL_E_INVALID_ARG && after == before,
        after.busy == before.busy && after.completed == before.completed,
        block is Ok,
        block->Ok_0.worker == after.worker,
        !block->Ok_0.busy && !block->Ok_0.completed,
{
}

/// A handle onto a clone is attributed as the other handle, and is onto the clone that was
/// made last.
pub proof fn lemma_handles_are_cloned<D: Distributions, O: DataObserver>(
    tc: &HegelTestCase,
    family: FamilyShared,
    stream: NativeTestCase<D, O>,
    after: NativeTestCase<D, O>,
    known: Result<bool, hegel_result_t>,
    r: Result<(HegelTestCase, usize), hegel_result_t>,
)
    requires
        exists|c: &mut HegelContext, f: &mut FamilyShared, m: &mut NativeTestCase<D, O>| #[trigger]
            call_ensures(hegel_test_case_clone::<D, O>, (c, Some(tc), f, m, false), r) && *f
                == family && *m == stream && *final(m) == after,
        exists|c: &mut HegelContext| #[trigger]
            call_ensures(
                hegel_test_case_is_nondeterministic::<D, O>,
                (c, Some(tc), &family, &stream, false),
                known,
            ),
        is_live(Some(tc), family),
    ensures
        known == Ok::<bool, hegel_result_t>(stream.is_nondeterministic),
        r matches Ok((h, k)) ==> {
            &&& h.worker == tc.worker && !h.busy && !h.completed
            &&& k == stream.clone_children@.len()
            &&& after.clone_children@.len() == k + 1
            &&& after.clone_children@[k as int].1.nodes@.len() == 0
            &&& after.nodes@.len() == stream.nodes@.len() + 1
        },
        family.core.conclusion is None && family.core.total_draws < family.core.budget
            && stream.nodes@.len() < stream.max_size ==> (r is Ok <==> stream.clone_id@.len()
            < family.core.max_clone_depth),
{
    assert(after.choices().len() == after.nodes@.len());
    assert(stream.choices().len() == stream.nodes@.len());
    assert(stream.clone_children.len() == stream.clone_children@.len());
}

/// What a line of a worker begins with names the worker and the time since the test case
/// started, in milliseconds with three decimals. Without a worker it begins with nothing.
pub proof fn lemma_lines_begin_with_their_worker(a: &Attribution, r: Option<String>)
    requires
        call_ensures(Attribution::line_prefix, (a,), r),
    ensures
        r is None <==> a.worker == -1,
        r is Some ==> exists|digits: Seq<char>, whole: Seq<char>, decimals: Seq<char>|
            {
                &&& r->Some_0@ == #[trigger] (("[worker "@ + digits + " +"@ + whole + "."@
                    + decimals) + "ms] "@)
                &&& a.worker >= 0 ==> digits_value(digits) == a.worker
                &&& digits_value(whole) == a.elapsed_micros / 1000
                &&& digits_value(decimals) == a.elapsed_micros % 1000
                &&& decimals.len() == 3
            },
{
    if r is Some {
        let rest = (a.elapsed_micros % 1000) as nat;
        let digits = signed_decimal(a.worker as int);
        let whole = decimal((a.elapsed_micros / 1000) as nat);
        let decimals = thousandths(rest);
        if a.worker >= 0 {
            lemma_decimal_reads_back(a.worker as nat);
        }
        lemma_decimal_reads_back((a.elapsed_micros / 1000) as nat);
        lemma_three_decimals(rest);
        assert(r->Some_0@ =~= ("[worker "@ + digits + " +"@ + whole + "."@ + decimals) + "ms] "@);
    }
}

/// Thousandths have three digits.
proof fn lemma_three_decimals(n: nat)
    requires
        n < 1000,
    ensures
        thousandths(n).len() == 3,
        digits_value(thousandths(n)) == n,
{
    reveal_with_fuel(decimal, 4);
    reveal_with_fuel(digits_value, 4);
    reveal_strlit("00");
    reveal_strlit("0");
    let t = thousandths(n);
    if n < 10 {
        assert(t =~= seq!['0', '0', digit(n)]);
    } else if n < 100 {
        assert(t =~= seq!['0', digit(n / 10), digit(n % 10)]);
    } else {
        assert(t =~= seq![
            digit(n / 100),
            digit(n / 10 % 10),
            digit(n % 10),
        ]);
    }
    assert(t.drop_last().drop_last().drop_last() =~= Seq::empty());
    assert(t.drop_last() =~= seq![t[0], t[1]]);
    assert(t.drop_last().drop_last() =~= seq![t[0]]);
}

} // verus!
