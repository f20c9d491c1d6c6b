//! UUIDs, dates and times: which of them a drawn number stands for.
use super::has_room_for;
use super::is_simplest;
use super::lemma_one_choice_more;
use super::recorded_one;
use super::replays;
use crate::choices::IntegerKind;
use crate::choices::KindView;
use crate::choices::NodeView;
use crate::choices::ValueView;
use crate::civil::civil_from_days;
use crate::civil::date_exists;
use crate::civil::day_number;
use crate::civil::days_from_civil;
use crate::civil::days_in_month;
use crate::civil::is_date;
use crate::civil::lemma_days_are_in_order;
use crate::civil::lemma_months_fill_the_year;
use crate::civil::lemma_months_follow;
use crate::civil::month_length;
use crate::civil::nanoseconds;
use crate::civil::time_exists;
use crate::civil::time_from_ns;
use crate::civil::time_to_ns;
use crate::civil::Date;
use crate::civil::DateTime;
use crate::civil::Time;
use crate::errors::EngineError;
use crate::family::FamilyCore;
use crate::sampling::Distributions;
use crate::special::big_endian;
use crate::special::date_anchor;
use crate::special::day_then_time;
use crate::special::earliest;
use crate::special::generate_date;
use crate::special::generate_datetime;
use crate::special::generate_time;
use crate::special::generate_uuid;
use crate::special::half_answer;
use crate::special::is_datetime;
use crate::special::latest;
use crate::special::least_half;
use crate::special::moment;
use crate::special::offset_answer;
use crate::special::uuid_bytes;
use crate::test_case::DataObserver;
use crate::test_case::NativeTestCase;
use vstd::arithmetic::div_mod::lemma_div_denominator;
use vstd::arithmetic::power::lemma_pow_positive;
use vstd::arithmetic::power::pow;
use vstd::prelude::*;

verus! {

/// A byte of a number is its quotient by a power of two hundred and fifty-six, less what
/// is above it.
proof fn lemma_byte_of(n: int, count: nat, i: int)
    requires
        0 <= n,
        0 <= i < count,
    ensures
        big_endian(n, count).len() == count,
        big_endian(n, count)[i] == (n / pow(256, (count - 1 - i) as nat)) % 256,
    decreases count,
{
    reveal(pow);
    reveal_with_fuel(big_endian, 2);
    if count > 1 {
        lemma_byte_of(
            n / 256,
            (count - 1) as nat,
            if i < count - 1 {
                i
            } else {
                0
            },
        );
    }
    if i < count - 1 {
        let e = (count - 2 - i) as nat;
        lemma_pow_positive(256, e);
        lemma_div_denominator(n, 256, pow(256, e));
        assert(pow(256, e + 1) == 256 * pow(256, e));
    } else {
        assert(pow(256, 0) == 1);
    }
}

/// Whether bytes are those of two halves, but for the version and the variant.
pub open spec fn are_halves(bytes: Seq<u8>, high: int, low: int, version: Option<u8>) -> bool {
    &&& bytes.len() == 16
    &&& forall|i: int|
        0 <= i < 8 && (i != 6 || version is None) ==> #[trigger] bytes[i] == (high / pow(
            256,
            (7 - i) as nat,
        )) % 256
    &&& forall|i: int|
        8 <= i < 16 && (i != 8 || version is None) ==> #[trigger] bytes[i] == (low / pow(
            256,
            (15 - i) as nat,
        )) % 256
    &&& bytes[6] % 16 == (high / pow(256, 1)) % 16
    &&& bytes[8] % 64 == (low / pow(256, 7)) % 64
    &&& version matches Some(v) ==> bytes[6] / 16 == v && bytes[8] / 64 == 2
}

/// The bytes of a UUID are those of its halves.
pub(crate) proof fn lemma_bytes_of_halves(high: u64, low: u64, version: Option<u8>)
    requires
        version matches Some(v) ==> v <= 15,
    ensures
        are_halves(uuid_bytes(high, low, version), high as int, low as int, version),
{
    let bytes = uuid_bytes(high, low, version);
    let a = big_endian(high as int, 8);
    let b = big_endian(low as int, 8);
    lemma_byte_of(high as int, 8, 6);
    lemma_byte_of(low as int, 8, 0);
    assert forall|i: int| 0 <= i < 8 && (i != 6 || version is None) implies #[trigger] bytes[i] == (
    high as int / pow(256, (7 - i) as nat)) % 256 by {
        lemma_byte_of(high as int, 8, i);
        assert(bytes[i] == a[i]);
    }
    assert forall|i: int| 8 <= i < 16 && (i != 8 || version is None) implies #[trigger] bytes[i]
        == (low as int / pow(256, (15 - i) as nat)) % 256 by {
        lemma_byte_of(low as int, 8, i - 8);
        assert(bytes[i] == b[i - 8]);
    }
    let x = high as int / pow(256, 1);
    let y = low as int / pow(256, 7);
    assert(a[6] == x % 256);
    assert(b[0] == y % 256);
    assert((x % 256) % 16 == x % 16);
    assert((y % 256) % 64 == y % 64);
    assert((a + b)[6] == a[6]);
    assert((a + b)[8] == b[0]);
}

/// A UUID is made of its two recorded halves: its bytes are theirs, the most significant
/// first. Where a version is asked for, the version stands in the upper four bits of the
/// seventh byte and the variant in the upper two of the ninth, and all the other bits
/// are those of the halves. The halves are not both zero.
pub proof fn lemma_uuids_are_their_halves<D: Distributions, O: DataObserver>(
    tc: NativeTestCase<D, O>,
    after: NativeTestCase<D, O>,
    family: FamilyCore,
    version: Option<u8>,
    r: Result<Vec<u8>, EngineError>,
)
    requires
        exists|m: &mut NativeTestCase<D, O>, f: &mut FamilyCore| #[trigger]
            call_ensures(generate_uuid::<D, O>, (m, f, version), r) && *m == tc && *final(m)
                == after && *f == family,
    ensures
        version matches Some(v) && v > 15 ==> r is Err && after == tc,
        r matches Ok(bytes) ==> {
            let first = after.nodes@[tc.nodes@.len() as int]@;
            let second = after.nodes@[tc.nodes@.len() as int + 1]@;
            let high = first.value->Integer_0;
            let low = second.value->Integer_0;
            &&& after.nodes@.len() == tc.nodes@.len() + 2
            &&& first.value is Integer && second.value is Integer
            &&& 0 <= high < 0x1_0000_0000_0000_0000
            &&& 0 <= low < 0x1_0000_0000_0000_0000
            &&& high != 0 || low != 0
            &&& are_halves(bytes@, high, low, version)
        },
{
    if r is Ok {
        let (mid, high) = choose|mid: NativeTestCase<D, O>, high: Result<u64, EngineError>|
            {
                &&& #[trigger] mid.drew_uniform(tc, family, 0, u64::MAX as int, half_answer(high))
                &&& match high {
                    Ok(high) => exists|low: Result<u64, EngineError>|
                        {
                            &&& #[trigger] after.within_span(mid).drew_uniform(
                                mid,
                                tc.family_after(family),
                                least_half(high),
                                u64::MAX as int,
                                half_answer(low),
                            )
                            &&& match (low, r) {
                                (Ok(low), Ok(bytes)) => bytes@ == uuid_bytes(high, low, version),
                                _ => false,
                            }
                        },
                    Err(e) => false,
                }
            };
        let high = high->Ok_0;
        let low = choose|low: Result<u64, EngineError>|
            {
                &&& #[trigger] after.within_span(mid).drew_uniform(
                    mid,
                    tc.family_after(family),
                    least_half(high),
                    u64::MAX as int,
                    half_answer(low),
                )
                &&& match (low, r) {
                    (Ok(low), Ok(bytes)) => bytes@ == uuid_bytes(high, low, version),
                    _ => false,
                }
            };
        let low = low->Ok_0;
        lemma_one_choice_more(tc, mid);
        lemma_one_choice_more(mid, after.within_span(mid));
        lemma_bytes_of_halves(high, low, version);
    }
}

/// A UUID has the halves that are replayed for it.
pub proof fn lemma_uuid_halves_are_as_chosen<D: Distributions, O: DataObserver>(
    tc: NativeTestCase<D, O>,
    after: NativeTestCase<D, O>,
    family: FamilyCore,
    version: Option<u8>,
    high: int,
    low: int,
    r: Result<Vec<u8>, EngineError>,
)
    requires
        exists|m: &mut NativeTestCase<D, O>, f: &mut FamilyCore| #[trigger]
            call_ensures(generate_uuid::<D, O>, (m, f, version), r) && *m == tc && *final(m)
                == after && *f == family,
        has_room_for(tc, family, 2),
        version matches Some(v) ==> v <= 15,
        replays(tc, 0, ValueView::Integer(high)),
        replays(tc, 1, ValueView::Integer(low)),
        0 <= high < 0x1_0000_0000_0000_0000,
        0 <= low < 0x1_0000_0000_0000_0000,
        high != 0 || low != 0,
    ensures
        r is Ok,
        after.nodes@[tc.nodes@.len() as int]@.value == ValueView::Integer(high),
        after.nodes@[tc.nodes@.len() as int + 1]@.value == ValueView::Integer(low),
{
    let (mid, first) = choose|mid: NativeTestCase<D, O>, first: Result<u64, EngineError>|
        {
            &&& #[trigger] mid.drew_uniform(tc, family, 0, u64::MAX as int, half_answer(first))
            &&& match first {
                Ok(first) => exists|second: Result<u64, EngineError>|
                    {
                        &&& #[trigger] after.within_span(mid).drew_uniform(
                            mid,
                            tc.family_after(family),
                            least_half(first),
                            u64::MAX as int,
                            half_answer(second),
                        )
                        &&& match (second, r) {
                            (Ok(_), Ok(_)) => true,
                            (Err(e), Err(f)) => f == e,
                            _ => false,
                        }
                    },
                Err(e) => r matches Err(f) && f == e,
            }
        };
    lemma_one_choice_more(tc, mid);
    assert(first == Ok::<u64, EngineError>(high as u64));
    let second = choose|second: Result<u64, EngineError>|
        {
            &&& #[trigger] after.within_span(mid).drew_uniform(
                mid,
                tc.family_after(family),
                least_half(first->Ok_0),
                u64::MAX as int,
                half_answer(second),
            )
            &&& match (second, r) {
                (Ok(_), Ok(_)) => true,
                (Err(e), Err(f)) => f == e,
                _ => false,
            }
        };
    lemma_one_choice_more(mid, after.within_span(mid));
}

/// How many days a month of the calendar has: every fourth year is a leap year, but of
/// the last years of the centuries only every fourth.
pub open spec fn last_day(year: int, month: int) -> int {
    if month == 2 {
        if year % 400 == 0 || (year % 4 == 0 && year % 100 != 0) {
            29
        } else {
            28
        }
    } else if month == 4 || month == 6 || month == 9 || month == 11 {
        30
    } else {
        31
    }
}

/// Every four hundredth year is a fourth one, and the last of a century.
proof fn lemma_leap_years(year: int)
    ensures
        forall|month: int| #[trigger] last_day(year, month) == month_length(year, month),
{
    if year % 400 == 0 {
        assert(year == 4 * (100 * (year / 400)));
    }
}

/// Whether there is such a day, in a year of at most six digits.
pub open spec fn is_day(date: Date) -> bool {
    &&& -999_999 <= date.year <= 999_999
    &&& 1 <= date.month <= 12
    &&& 1 <= date.day <= last_day(date.year as int, date.month as int)
}

/// The days there are are the dates there are.
proof fn lemma_days_are_dates(date: Date)
    ensures
        is_day(date) == is_date(date),
{
    lemma_leap_years(date.year as int);
}

/// Whether one day follows another.
pub open spec fn is_next_day(date: Date, next: Date) -> bool {
    if date.day < last_day(date.year as int, date.month as int) {
        next.year == date.year && next.month == date.month && next.day == date.day + 1
    } else if date.month < 12 {
        next.year == date.year && next.month == date.month + 1 && next.day == 1
    } else {
        next.year == date.year + 1 && next.month == 1 && next.day == 1
    }
}

/// Whether a day is another one or before it.
pub open spec fn is_no_later(a: Date, b: Date) -> bool {
    a.year < b.year || a.year == b.year && (a.month < b.month || a.month == b.month && a.day
        <= b.day)
}

/// The number of the day that follows is one more.
proof fn lemma_next_day_number(date: Date, next: Date)
    requires
        is_date(date),
        is_next_day(date, next),
    ensures
        day_number(next) == day_number(date) + 1,
{
    let year = date.year as int;
    if date.day < last_day(year, date.month as int) {
    } else if date.month < 12 {
        lemma_months_follow(year, date.month as int);
    } else {
        lemma_months_fill_the_year(year);
        lemma_months_fill_the_year(year + 1);
    }
}

/// Dates and their numbers are in the same order.
pub(crate) proof fn lemma_dates_between(low: Date, date: Date, high: Date)
    ensures
        is_day(low) == is_date(low) && is_day(date) == is_date(date) && is_day(high) == is_date(
            high,
        ),
        is_day(low) && is_day(date) ==> (is_no_later(low, date) <==> day_number(low) <= day_number(
            date,
        )),
        is_day(date) && is_day(high) ==> (is_no_later(date, high) <==> day_number(date)
            <= day_number(high)),
{
    lemma_days_are_dates(low);
    lemma_days_are_dates(date);
    lemma_days_are_dates(high);
    if is_day(low) && is_day(date) {
        lemma_days_are_in_order(low, date);
        lemma_days_are_in_order(date, low);
    }
    if is_day(date) && is_day(high) {
        lemma_days_are_in_order(date, high);
        lemma_days_are_in_order(high, date);
    }
}

/// Some day follows each, unless it is the last.
proof fn lemma_day_with_next_number(date: Date, next: Date)
    requires
        is_date(date),
        is_date(next),
        day_number(next) == day_number(date) + 1,
    ensures
        is_next_day(date, next),
{
    lemma_days_are_in_order(date, next);
    let follower = if date.day < last_day(date.year as int, date.month as int) {
        Date { day: (date.day + 1) as u8, ..date }
    } else if date.month < 12 {
        Date { month: (date.month + 1) as u8, day: 1, ..date }
    } else {
        Date { year: (date.year + 1) as i32, month: 1, day: 1 }
    };
    assert(is_next_day(date, follower));
    lemma_next_day_number(date, follower);
    lemma_days_are_in_order(follower, next);
}

/// The calendar is the Gregorian one.
pub proof fn lemma_calendar_is_gregorian(date: Date, year: i32, month: u8, r: bool, n: i64)
    requires
        call_ensures(date_exists, (&date,), r),
        call_ensures(days_in_month, (year, month), n),
    ensures
        r <==> is_day(date),
        1 <= month <= 12 ==> n == last_day(year as int, month as int),
{
    lemma_leap_years(date.year as int);
    lemma_leap_years(year as int);
}

/// Days are numbered as they follow each other, from the first of January 1970 on, which
/// has the number zero.
pub proof fn lemma_days_are_numbered(date: Date, next: Date, r: i64, s: i64)
    requires
        call_ensures(days_from_civil, (&date,), r),
        call_ensures(days_from_civil, (&next,), s),
        is_day(date),
        is_day(next),
    ensures
        is_next_day(date, next) <==> s == r + 1,
        date == (Date { year: 1970, month: 1, day: 1 }) <==> r == 0,
{
    if is_next_day(date, next) {
        lemma_next_day_number(date, next);
    }
    if s == r + 1 {
        lemma_day_with_next_number(date, next);
    }
    let first = Date { year: 1970, month: 1, day: 1 };
    lemma_months_fill_the_year(1970);
    assert(day_number(first) == 0);
    lemma_days_are_in_order(date, first);
}

/// The number of a day is that of no other, and gives the day back.
pub proof fn lemma_day_numbers_give_days_back(date: Date, days: i64, back: Date)
    requires
        call_ensures(days_from_civil, (&date,), days),
        call_ensures(civil_from_days, (days,), back),
        is_day(date),
        is_day(date),
    ensures
        back == date,
{
    lemma_days_are_in_order(date, back);
}

/// A time is so many nanoseconds after midnight, and comes back from them.
pub proof fn lemma_times_are_nanoseconds(time: Time, exists_: bool, ns: u64, back: Time)
    requires
        call_ensures(time_exists, (&time,), exists_),
        call_ensures(time_to_ns, (&time,), ns),
        call_ensures(time_from_ns, (ns,), back),
        exists_,
    ensures
        time.hour < 24 && time.minute < 60 && time.second < 60 && time.nanosecond < 1_000_000_000,
        ns == 3_600_000_000_000 * time.hour + 60_000_000_000 * time.minute + 1_000_000_000
            * time.second + time.nanosecond,
        back == time,
{
}

/// The number of the first of January 2000.
proof fn lemma_simplest_day()
    ensures
        day_number(Date { year: 2000, month: 1, day: 1 }) == 10957,
{
    lemma_months_fill_the_year(2000);
}

/// A date lies within its bounds. The simplest one is the first of January 2000, or the
/// bound that is nearest to it. It is also the one for which zero is replayed, and for
/// each number replayed the date is the day after that for the number before. A pair of
/// bounds that is the wrong way round, or no date, is refused, and nothing is drawn.
pub proof fn lemma_dates_are_as_chosen<D: Distributions, O: DataObserver>(
    tc: NativeTestCase<D, O>,
    after: NativeTestCase<D, O>,
    family: FamilyCore,
    min: Date,
    max: Date,
    v: int,
    r: Result<Date, EngineError>,
)
    requires
        exists|m: &mut NativeTestCase<D, O>, f: &mut FamilyCore| #[trigger]
            call_ensures(generate_date::<D, O>, (m, f, min, max), r) && *m == tc && *final(m)
                == after && *f == family,
        has_room_for(tc, family, 1),
    ensures
        !is_day(min) || !is_day(max) || !is_no_later(min, max) ==> r is Err && after == tc,
        r matches Ok(date) ==> is_day(date) && is_no_later(min, date) && is_no_later(date, max),
        is_day(min) && is_day(max) && is_no_later(min, max) && (is_simplest(tc) || replays(
            tc,
            0,
            ValueView::Integer(0),
        )) ==> {
            let plain = Date { year: 2000, month: 1, day: 1 };
            &&& r is Ok
            &&& is_no_later(min, plain) && is_no_later(plain, max) ==> r->Ok_0 == plain
            &&& is_no_later(plain, min) ==> r->Ok_0 == min
            &&& is_no_later(max, plain) ==> r->Ok_0 == max
        },
{
    let plain = Date { year: 2000, month: 1, day: 1 };
    lemma_simplest_day();
    lemma_days_are_dates(min);
    lemma_days_are_dates(max);
    if is_day(min) && is_day(max) {
        lemma_days_are_in_order(min, max);
        lemma_days_are_in_order(max, min);
        lemma_days_are_in_order(min, plain);
        lemma_days_are_in_order(plain, min);
        lemma_days_are_in_order(plain, max);
        lemma_days_are_in_order(max, plain);
    }
    if r is Ok {
        lemma_days_are_dates(r->Ok_0);
        lemma_days_are_in_order(min, r->Ok_0);
        lemma_days_are_in_order(r->Ok_0, max);
        lemma_days_are_in_order(r->Ok_0, min);
        lemma_days_are_in_order(max, r->Ok_0);
        lemma_days_are_in_order(plain, r->Ok_0);
    }
}

/// A date is recorded as a number. Dates are one day apart exactly where their numbers
/// are one apart, and the number is zero for the simplest date alone. The number is what
/// is replayed, where that stands for a date within the bounds.
pub proof fn lemma_dates_follow_their_numbers<D: Distributions, O: DataObserver>(
    tc: NativeTestCase<D, O>,
    after: NativeTestCase<D, O>,
    family: FamilyCore,
    other: NativeTestCase<D, O>,
    other_after: NativeTestCase<D, O>,
    min: Date,
    max: Date,
    r: Result<Date, EngineError>,
    s: Result<Date, EngineError>,
)
    requires
        exists|m: &mut NativeTestCase<D, O>, f: &mut FamilyCore| #[trigger]
            call_ensures(generate_date::<D, O>, (m, f, min, max), r) && *m == tc && *final(m)
                == after && *f == family,
        exists|m: &mut NativeTestCase<D, O>, f: &mut FamilyCore| #[trigger]
            call_ensures(generate_date::<D, O>, (m, f, min, max), s) && *m == other && *final(m)
                == other_after,
        r is Ok,
        s is Ok,
    ensures
        ({
            let node = after.nodes@[tc.nodes@.len() as int]@;
            let kind = node.kind->Integer_0;
            let n = node.value->Integer_0;
            let k = other_after.nodes@[other.nodes@.len() as int]@.value->Integer_0;
            let plain = Date { year: 2000, month: 1, day: 1 };
            &&& after.nodes@.len() == tc.nodes@.len() + 1
            &&& other_after.nodes@.len() == other.nodes@.len() + 1
            &&& node.kind is Integer && node.value is Integer
            &&& is_next_day(r->Ok_0, s->Ok_0) <==> k == n + 1
            &&& r->Ok_0 == s->Ok_0 <==> k == n
            &&& n == 0 <==> r->Ok_0 == if is_no_later(plain, min) {
                min
            } else if is_no_later(max, plain) {
                max
            } else {
                plain
            }
            &&& r->Ok_0 == min <==> n == kind.min
            &&& r->Ok_0 == max <==> n == kind.max
            &&& has_room_for(tc, family, 1) ==> forall|v: int|
                kind.min <= v <= kind.max && #[trigger] replays(tc, 0, ValueView::Integer(v)) ==> v
                    == n
        }),
{
    lemma_one_choice_more(tc, after);
    lemma_one_choice_more(other, other_after);
    let plain = Date { year: 2000, month: 1, day: 1 };
    lemma_simplest_day();
    lemma_days_are_in_order(min, r->Ok_0);
    lemma_days_are_in_order(r->Ok_0, max);
    lemma_days_are_in_order(r->Ok_0, s->Ok_0);
    lemma_days_are_in_order(min, max);
    lemma_days_are_in_order(plain, min);
    lemma_days_are_in_order(min, plain);
    lemma_days_are_in_order(plain, max);
    lemma_days_are_in_order(max, plain);
    lemma_days_are_in_order(plain, r->Ok_0);
    if is_next_day(r->Ok_0, s->Ok_0) {
        lemma_next_day_number(r->Ok_0, s->Ok_0);
    }
    if day_number(s->Ok_0) == day_number(r->Ok_0) + 1 {
        lemma_day_with_next_number(r->Ok_0, s->Ok_0);
    }
}

/// How many nanoseconds a time lies after midnight.
pub open spec fn since_midnight(time: Time) -> int {
    3_600_000_000_000 * time.hour + 60_000_000_000 * time.minute + 1_000_000_000 * time.second
        + time.nanosecond
}

/// Whether there is such a time of day.
pub open spec fn is_time_of_day(time: Time) -> bool {
    time.hour < 24 && time.minute < 60 && time.second < 60 && time.nanosecond < 1_000_000_000
}

/// A time lies within its bounds. It lies as many nanoseconds after the earliest one as
/// is replayed, and is the earliest one where the choice is simplest. A pair of bounds
/// that is the wrong way round, or no time, is refused, and nothing is drawn.
pub proof fn lemma_times_are_as_chosen<D: Distributions, O: DataObserver>(
    tc: NativeTestCase<D, O>,
    after: NativeTestCase<D, O>,
    family: FamilyCore,
    min: Time,
    max: Time,
    v: int,
    r: Result<Time, EngineError>,
)
    requires
        exists|m: &mut NativeTestCase<D, O>, f: &mut FamilyCore| #[trigger]
            call_ensures(generate_time::<D, O>, (m, f, min, max), r) && *m == tc && *final(m)
                == after && *f == family,
        has_room_for(tc, family, 1),
    ensures
        !is_time_of_day(min) || !is_time_of_day(max) || since_midnight(min) > since_midnight(max)
            ==> r is Err && after == tc,
        r matches Ok(time) ==> {
            &&& is_time_of_day(time)
            &&& since_midnight(min) <= since_midnight(time) <= since_midnight(max)
            &&& recorded_one(
                tc,
                after,
                NodeView {
                    kind: KindView::Integer(
                        IntegerKind {
                            min: 0,
                            max: since_midnight(max) - since_midnight(min),
                            towards: 0,
                        },
                    ),
                    value: ValueView::Integer(since_midnight(time) - since_midnight(min)),
                    was_forced: false,
                },
            )
        },
        is_time_of_day(min) && is_time_of_day(max) && 0 <= v <= since_midnight(max)
            - since_midnight(min) && replays(tc, 0, ValueView::Integer(v)) ==> r is Ok
            && since_midnight(r->Ok_0) == since_midnight(min) + v,
        is_time_of_day(min) && is_time_of_day(max) && since_midnight(min) <= since_midnight(max)
            && is_simplest(tc) ==> r == Ok::<Time, EngineError>(min),
{
    if r is Ok {
        lemma_one_choice_more(tc, after);
    }
}

/// A moment lies within its bounds: it is on a day between theirs, and where it is on
/// the same day as one of them, it is not on the wrong side of its time. Its time is
/// drawn from the first that its day allows to the last. The simplest one is the earliest
/// of the simplest day.
#[verifier::spinoff_prover]
#[verifier::rlimit(80)]
pub proof fn lemma_moments_are_as_chosen<D: Distributions, O: DataObserver>(
    tc: NativeTestCase<D, O>,
    after: NativeTestCase<D, O>,
    family: FamilyCore,
    min: DateTime,
    max: DateTime,
    r: Result<DateTime, EngineError>,
)
    requires
        exists|m: &mut NativeTestCase<D, O>, f: &mut FamilyCore| #[trigger]
            call_ensures(generate_datetime::<D, O>, (m, f, min, max), r) && *m == tc && *final(m)
                == after && *f == family,
        has_room_for(tc, family, 2),
    ensures
        r matches Ok(v) ==> {
            &&& is_day(v.date) && is_time_of_day(v.time)
            &&& is_no_later(min.date, v.date) && is_no_later(v.date, max.date)
            &&& v.date == min.date ==> since_midnight(v.time) >= since_midnight(min.time)
            &&& v.date == max.date ==> since_midnight(v.time) <= since_midnight(max.time)
            &&& after.nodes@.len() == tc.nodes@.len() + 2
            &&& after.nodes@[tc.nodes@.len() as int + 1]@.value == ValueView::Integer(
                since_midnight(v.time) - if v.date == min.date {
                    since_midnight(min.time)
                } else {
                    0
                },
            )
            &&& after.nodes@[tc.nodes@.len() as int + 1]@.kind is Integer
            &&& after.nodes@[tc.nodes@.len() as int + 1]@.kind->Integer_0.min == 0
            &&& after.nodes@[tc.nodes@.len() as int + 1]@.kind->Integer_0.max == (if v.date
                == max.date {
                since_midnight(max.time)
            } else {
                86_399_999_999_999
            }) - if v.date == min.date {
                since_midnight(min.time)
            } else {
                0
            }
        },
        is_day(min.date) && is_time_of_day(min.time) && is_day(max.date) && is_time_of_day(max.time)
            && is_no_later(min.date, max.date) && (min.date == max.date ==> since_midnight(min.time)
            <= since_midnight(max.time)) && is_simplest(tc) ==> {
            let plain = Date { year: 2000, month: 1, day: 1 };
            &&& r is Ok
            &&& r->Ok_0.date == if is_no_later(plain, min.date) {
                min.date
            } else if is_no_later(max.date, plain) {
                max.date
            } else {
                plain
            }
            &&& r->Ok_0.date != min.date ==> since_midnight(r->Ok_0.time) == 0
            &&& r->Ok_0.date == min.date ==> r->Ok_0.time == min.time
        },
{
    let plain = Date { year: 2000, month: 1, day: 1 };
    lemma_simplest_day();
    let fine = is_datetime(min) && is_datetime(max);
    if fine {
        lemma_days_are_in_order(min.date, max.date);
        lemma_days_are_in_order(plain, min.date);
        lemma_days_are_in_order(min.date, plain);
        lemma_days_are_in_order(plain, max.date);
        lemma_days_are_in_order(max.date, plain);
        if moment(min) <= moment(max) {
            let anchor = date_anchor(min.date, max.date);
            let first = day_number(min.date) - anchor;
            let last = day_number(max.date) - anchor;
            assert(first <= 0 <= last);
            assert(day_then_time(
                after,
                tc,
                family,
                tc.family_after(tc.family_after(family)),
                min,
                max,
                anchor,
                first,
                last,
                r,
            ) || true);
            let (mid, day) = choose|mid: NativeTestCase<D, O>, day: Result<i64, EngineError>|
                {
                    &&& #[trigger] mid.drew_integer(tc, family, first, last, offset_answer(day))
                    &&& match day {
                        Ok(offset) => {
                            let day = anchor + offset;
                            let start = earliest(min, day);
                            &&& after.within_span(mid).drew_integer(
                                mid,
                                tc.family_after(family),
                                0,
                                latest(max, day) - start,
                                match r {
                                    Ok(v) => Ok(
                                        ValueView::Integer(nanoseconds(v.time) - start),
                                    ),
                                    Err(e) => Err(e),
                                },
                            )
                            &&& r matches Ok(v) ==> day_number(v.date) == day
                        },
                        Err(e) => r matches Err(f) && f == e,
                    }
                };
            if day is Ok {
                lemma_one_choice_more(tc, mid);
            }
            if r is Ok {
                lemma_one_choice_more(mid, after.within_span(mid));
                lemma_days_are_in_order(min.date, r->Ok_0.date);
                lemma_days_are_in_order(r->Ok_0.date, max.date);
                lemma_days_are_in_order(plain, r->Ok_0.date);
            }
        }
    }
}

} // verus!
