//! Draws of dates, times and identifiers.
use crate::bignum::BigInt;
use crate::choices::ValueView;
use crate::civil::civil_from_days;
use crate::civil::date_exists;
use crate::civil::day_number;
use crate::civil::days_from_civil;
use crate::civil::is_date;
use crate::civil::is_time;
use crate::civil::nanoseconds;
use crate::civil::time_exists;
use crate::civil::time_from_ns;
use crate::civil::time_to_ns;
use crate::civil::Date;
use crate::civil::DateTime;
use crate::civil::Time;
use crate::civil::DAY_NANOSECONDS;
use crate::drawing::integer_range;
use crate::draws::complains;
use crate::errors::EngineError;
use crate::family::FamilyCore;
use crate::labels::DrawKind;
use crate::replay::lemma_draws_fit;
use crate::sampling::Distributions;
use crate::test_case::DataObserver;
use crate::test_case::NativeTestCase;
use vstd::prelude::*;

verus! {

/// The number of 2000-01-01, which dates shrink towards.
pub const SIMPLEST_DAY: i64 = 10957;

/// A number of `[min, max]` that is nearest to another one.
pub open spec fn nearest_within(n: int, min: int, max: int) -> int {
    if n < min {
        min
    } else if n > max {
        max
    } else {
        n
    }
}

/// The answer to a request for an integer that is given back as another value.
pub open spec fn offset_answer(r: Result<i64, EngineError>) -> Result<ValueView, EngineError> {
    match r {
        Ok(v) => Ok(ValueView::Integer(v as int)),
        Err(e) => Err(e),
    }
}

/// Draws an integer of `[min, max]`.
fn draw_offset<D: Distributions, O: DataObserver>(
    ntc: &mut NativeTestCase<D, O>,
    family: &mut FamilyCore,
    min: i64,
    max: i64,
) -> (r: Result<i64, EngineError>)
    requires
        min <= max,
    ensures
        final(ntc).drew_integer(
            *old(ntc),
            *old(family),
            min as int,
            max as int,
            offset_answer(r),
        ),
        *final(family) == old(ntc).family_after(*old(family)),
        r matches Ok(v) ==> min <= v <= max,
{
    match ntc.draw_integer(family, BigInt::from_i64(min), BigInt::from_i64(max)) {
        Ok(n) => {
            proof {
                lemma_draws_fit(
                    *ntc,
                    *old(ntc),
                    *old(family),
                    integer_range(min as int, max as int),
                    ValueView::Integer(n@),
                );
            }
            let v: i64 = match n.to_i64() {
                Some(v) => v,
                None => 0,
            };
            Ok(v)
        },
        Err(e) => Err(e),
    }
}

/// Why there are no dates between two.
pub open spec fn date_fault(min: Date, max: Date) -> Option<Seq<char>> {
    if !is_date(min) || !is_date(max) {
        Some("generate_date requires dates of the calendar as bounds"@)
    } else if day_number(min) > day_number(max) {
        Some("generate_date requires min_value <= max_value"@)
    } else {
        None
    }
}

/// Where a date is drawn from: 2000-01-01, or the bound that is nearest to
/// it.
pub open spec fn date_anchor(min: Date, max: Date) -> int {
    nearest_within(SIMPLEST_DAY as int, day_number(min), day_number(max))
}

/// A number of `[min, max]` that is nearest to another one.
fn clamp_day(day: i64, min: i64, max: i64) -> (r: i64)
    ensures
        r == nearest_within(day as int, min as int, max as int),
{
    if day < min {
        min
    } else if day > max {
        max
    } else {
        day
    }
}

/// Whether a date of `[min, max]` was drawn, or the request failed.
pub open spec fn date_drawn<D: Distributions, O: DataObserver>(
    new: NativeTestCase<D, O>,
    old: NativeTestCase<D, O>,
    family: FamilyCore,
    new_family: FamilyCore,
    min: Date,
    max: Date,
    r: Result<Date, EngineError>,
) -> bool {
    match date_fault(min, max) {
        Some(what) => {
            &&& r matches Err(e) && complains(e, what)
            &&& new == old
            &&& new_family == family
        },
        None => if !old.has_depth() {
            r matches Err(e) && new.too_deep(old, family, new_family, DrawKind::Date, e)
        } else {
            let anchor = date_anchor(min, max);
            &&& new.wrapped(old, DrawKind::Date)
            &&& new.within_span(old).drew_integer(
                old,
                family,
                day_number(min) - anchor,
                day_number(max) - anchor,
                match r {
                    Ok(date) => Ok(ValueView::Integer(day_number(date) - anchor)),
                    Err(e) => Err(e),
                },
            )
            &&& new_family == old.family_after(family)
            &&& r matches Ok(date) ==> is_date(date) && day_number(min) <= day_number(date)
                <= day_number(max)
        },
    }
}

/// Draws a date of `[min, max]`.
///
/// The choice that is recorded says how many days the date lies after
/// 2000-01-01, or after the bound that is nearest to it.
pub fn generate_date<D: Distributions, O: DataObserver>(
    ntc: &mut NativeTestCase<D, O>,
    family: &mut FamilyCore,
    min: Date,
    max: Date,
) -> (r: Result<Date, EngineError>)
    ensures
        date_drawn(*final(ntc), *old(ntc), *old(family), *final(family), min, max, r),
{
    if !date_exists(&min) || !date_exists(&max) {
        return Err(
            EngineError::InvalidArgument(
                String::from_str("generate_date requires dates of the calendar as bounds"),
            ),
        );
    }
    let low: i64 = days_from_civil(&min);
    let high: i64 = days_from_civil(&max);
    if low > high {
        return Err(
            EngineError::InvalidArgument(
                String::from_str("generate_date requires min_value <= max_value"),
            ),
        );
    }
    let anchor: i64 = clamp_day(SIMPLEST_DAY, low, high);
    ntc.enter(family, DrawKind::Date);
    let r = draw_offset(ntc, family, low - anchor, high - anchor);
    ntc.stop_span(false);
    match r {
        Ok(offset) => Ok(civil_from_days(anchor + offset)),
        Err(e) => Err(e),
    }
}

/// Why there are no times between two.
pub open spec fn time_fault(min: Time, max: Time) -> Option<Seq<char>> {
    if !is_time(min) || !is_time(max) {
        Some("generate_time requires times of day as bounds"@)
    } else if nanoseconds(min) > nanoseconds(max) {
        Some("generate_time requires min_value <= max_value"@)
    } else {
        None
    }
}

/// Whether a time of `[min, max]` was drawn, or the request failed.
pub open spec fn time_drawn<D: Distributions, O: DataObserver>(
    new: NativeTestCase<D, O>,
    old: NativeTestCase<D, O>,
    family: FamilyCore,
    new_family: FamilyCore,
    min: Time,
    max: Time,
    r: Result<Time, EngineError>,
) -> bool {
    match time_fault(min, max) {
        Some(what) => {
            &&& r matches Err(e) && complains(e, what)
            &&& new == old
            &&& new_family == family
        },
        None => if !old.has_depth() {
            r matches Err(e) && new.too_deep(old, family, new_family, DrawKind::Time, e)
        } else {
            &&& new.wrapped(old, DrawKind::Time)
            &&& new.within_span(old).drew_integer(
                old,
                family,
                0,
                nanoseconds(max) - nanoseconds(min),
                match r {
                    Ok(time) => Ok(ValueView::Integer(nanoseconds(time) - nanoseconds(min))),
                    Err(e) => Err(e),
                },
            )
            &&& new_family == old.family_after(family)
            &&& r matches Ok(time) ==> is_time(time) && nanoseconds(min) <= nanoseconds(time)
                <= nanoseconds(max)
        },
    }
}

/// Draws a time of `[min, max]`.
///
/// The choice that is recorded says how many nanoseconds the time lies after
/// the smallest one.
pub fn generate_time<D: Distributions, O: DataObserver>(
    ntc: &mut NativeTestCase<D, O>,
    family: &mut FamilyCore,
    min: Time,
    max: Time,
) -> (r: Result<Time, EngineError>)
    ensures
        time_drawn(*final(ntc), *old(ntc), *old(family), *final(family), min, max, r),
{
    if !time_exists(&min) || !time_exists(&max) {
        return Err(
            EngineError::InvalidArgument(
                String::from_str("generate_time requires times of day as bounds"),
            ),
        );
    }
    let low: u64 = time_to_ns(&min);
    let high: u64 = time_to_ns(&max);
    if low > high {
        return Err(
            EngineError::InvalidArgument(
                String::from_str("generate_time requires min_value <= max_value"),
            ),
        );
    }
    ntc.enter(family, DrawKind::Time);
    let r = draw_offset(ntc, family, 0, (high - low) as i64);
    ntc.stop_span(false);
    match r {
        Ok(offset) => Ok(time_from_ns(low + offset as u64)),
        Err(e) => Err(e),
    }
}

/// Whether there is such a moment.
pub open spec fn is_datetime(v: DateTime) -> bool {
    is_date(v.date) && is_time(v.time)
}

/// How many nanoseconds a moment lies after the beginning of 1970.
pub open spec fn moment(v: DateTime) -> int {
    day_number(v.date) * DAY_NANOSECONDS + nanoseconds(v.time)
}

/// Why there are no moments between two.
pub open spec fn datetime_fault(min: DateTime, max: DateTime) -> Option<Seq<char>> {
    if !is_datetime(min) || !is_datetime(max) {
        Some("generate_datetime requires dates and times of day as bounds"@)
    } else if moment(min) > moment(max) {
        Some("generate_datetime requires min_value <= max_value"@)
    } else {
        None
    }
}

/// The earliest time of a day that is not before `min`.
pub open spec fn earliest(min: DateTime, day: int) -> int {
    if day == day_number(min.date) {
        nanoseconds(min.time)
    } else {
        0
    }
}

/// The latest time of a day that is not after `max`.
pub open spec fn latest(max: DateTime, day: int) -> int {
    if day == day_number(max.date) {
        nanoseconds(max.time)
    } else {
        DAY_NANOSECONDS - 1
    }
}

/// Whether a moment of `[min, max]` was drawn, or the request failed.
pub open spec fn datetime_drawn<D: Distributions, O: DataObserver>(
    new: NativeTestCase<D, O>,
    old: NativeTestCase<D, O>,
    family: FamilyCore,
    new_family: FamilyCore,
    min: DateTime,
    max: DateTime,
    r: Result<DateTime, EngineError>,
) -> bool {
    &&& r matches Ok(v) ==> is_datetime(v) && moment(min) <= moment(v) <= moment(max)
    &&& match datetime_fault(min, max) {
            Some(what) => {
                &&& r matches Err(e) && complains(e, what)
                &&& new == old
                &&& new_family == family
            },
            None => if !old.has_depth() {
                r matches Err(e) && new.too_deep(old, family, new_family, DrawKind::DateTime, e)
            } else {
                let anchor = date_anchor(min.date, max.date);
                &&& new.wrapped(old, DrawKind::DateTime)
                &&& day_then_time(
                    new,
                    old,
                    family,
                    new_family,
                    min,
                    max,
                    anchor,
                    day_number(min.date) - anchor,
                    day_number(max.date) - anchor,
                    r,
                )
            },
        }
}

/// Whether a day was drawn, between `first` and `last` days after an anchor, and
/// then a time of that day.
pub open spec fn day_then_time<D: Distributions, O: DataObserver>(
    new: NativeTestCase<D, O>,
    old: NativeTestCase<D, O>,
    family: FamilyCore,
    new_family: FamilyCore,
    min: DateTime,
    max: DateTime,
    anchor: int,
    first: int,
    last: int,
    r: Result<DateTime, EngineError>,
) -> bool {
    exists|mid: NativeTestCase<D, O>, day: Result<i64, EngineError>|
        {
            &&& #[trigger] mid.drew_integer(old, family, first, last, offset_answer(day))
            &&& match day {
                Ok(offset) => {
                    let day = anchor + offset;
                    let start = earliest(min, day);
                    &&& new.within_span(mid).drew_integer(
                        mid,
                        old.family_after(family),
                        0,
                        latest(max, day) - start,
                        match r {
                            Ok(v) => Ok(ValueView::Integer(nanoseconds(v.time) - start)),
                            Err(e) => Err(e),
                        },
                    )
                    &&& r matches Ok(v) ==> day_number(v.date) == day
                    &&& new_family == mid.family_after(old.family_after(family))
                },
                Err(e) => r matches Err(f) && f == e && new_family == old.family_after(family),
            }
        }
}

/// Draws a moment of `[min, max]`: a date, then a time of that day.
pub fn generate_datetime<D: Distributions, O: DataObserver>(
    ntc: &mut NativeTestCase<D, O>,
    family: &mut FamilyCore,
    min: DateTime,
    max: DateTime,
) -> (r: Result<DateTime, EngineError>)
    ensures
        datetime_drawn(*final(ntc), *old(ntc), *old(family), *final(family), min, max, r),
{
    if !date_exists(&min.date) || !date_exists(&max.date) || !time_exists(&min.time)
        || !time_exists(&max.time) {
        return Err(
            EngineError::InvalidArgument(
                String::from_str("generate_datetime requires dates and times of day as bounds"),
            ),
        );
    }
    let low: i64 = days_from_civil(&min.date);
    let high: i64 = days_from_civil(&max.date);
    let low_ns: u64 = time_to_ns(&min.time);
    let high_ns: u64 = time_to_ns(&max.time);
    if low > high || (low == high && low_ns > high_ns) {
        return Err(
            EngineError::InvalidArgument(
                String::from_str("generate_datetime requires min_value <= max_value"),
            ),
        );
    }
    let anchor: i64 = clamp_day(SIMPLEST_DAY, low, high);
    ntc.enter(family, DrawKind::DateTime);
    let r = draw_offset(ntc, family, low - anchor, high - anchor);
    let ghost mid = ntc.within_span(*old(ntc));
    assert(old(ntc).has_depth() ==> mid.drew_integer(
        *old(ntc),
        *old(family),
        low - anchor,
        high - anchor,
        offset_answer(r),
    ));
    let day: i64 = match r {
        Ok(offset) => anchor + offset,
        Err(e) => {
            ntc.stop_span(false);
            assert(old(ntc).has_depth() ==> day_then_time(
                *ntc,
                *old(ntc),
                *old(family),
                *family,
                min,
                max,
                anchor as int,
                low - anchor,
                high - anchor,
                Err(e),
            ));
            return Err(e);
        },
    };
    let start: u64 = if day == low {
        low_ns
    } else {
        0
    };
    let end: u64 = if day == high {
        high_ns
    } else {
        DAY_NANOSECONDS - 1
    };
    let t = draw_offset(ntc, family, 0, (end - start) as i64);
    assert(old(ntc).has_depth() ==> ntc.within_span(mid).drew_integer(
        mid,
        old(ntc).family_after(*old(family)),
        0,
        end - start,
        offset_answer(t),
    ));
    ntc.stop_span(false);
    let r = match t {
        Ok(offset) => Ok(
            DateTime { date: civil_from_days(day), time: time_from_ns(start + offset as u64) },
        ),
        Err(e) => Err(e),
    };
    assert(old(ntc).has_depth() ==> day_then_time(
        *ntc,
        *old(ntc),
        *old(family),
        *family,
        min,
        max,
        anchor as int,
        low - anchor,
        high - anchor,
        r,
    ));
    r
}

/// A number as `count` bytes, the most significant first.
pub open spec fn big_endian(n: int, count: nat) -> Seq<u8>
    decreases count,
{
    if count == 0 {
        Seq::empty()
    } else {
        big_endian(n / 256, (count - 1) as nat).push((n % 256) as u8)
    }
}

/// Appends a number as `count` bytes, the most significant first.
fn append_big_endian(out: &mut Vec<u8>, n: u64, count: u32)
    ensures
        final(out)@ == old(out)@ + big_endian(n as int, count as nat),
    decreases count,
{
    if count > 0 {
        append_big_endian(out, n / 256, count - 1);
        out.push((n % 256) as u8);
        assert(out@ =~= old(out)@ + big_endian(n as int, count as nat));
    }
}

/// The bytes have the asked-for length.
proof fn lemma_big_endian_length(n: int, count: nat)
    ensures
        big_endian(n, count).len() == count,
    decreases count,
{
    if count > 0 {
        lemma_big_endian_length(n / 256, (count - 1) as nat);
    }
}

/// The bytes of a UUID made of two numbers. With a version, the version and
/// the variant of the standard are filled in.
pub open spec fn uuid_bytes(high: u64, low: u64, version: Option<u8>) -> Seq<u8> {
    let bytes = big_endian(high as int, 8) + big_endian(low as int, 8);
    match version {
        Some(v) => bytes.update(6, (v * 16 + bytes[6] % 16) as u8).update(
            8,
            (128 + bytes[8] % 64) as u8,
        ),
        None => bytes,
    }
}

/// Whether a UUID was drawn, or the request failed.
pub open spec fn uuid_drawn<D: Distributions, O: DataObserver>(
    new: NativeTestCase<D, O>,
    old: NativeTestCase<D, O>,
    family: FamilyCore,
    new_family: FamilyCore,
    version: Option<u8>,
    r: Result<Vec<u8>, EngineError>,
) -> bool {
    if version matches Some(v) && v > 15 {
        &&& r matches Err(e) && complains(
            e,
            "generate_uuid requires the version to be a hex nibble"@,
        )
        &&& new == old
        &&& new_family == family
    } else if !old.has_depth() {
        r matches Err(e) && new.too_deep(old, family, new_family, DrawKind::Uuid, e)
    } else {
        &&& new.wrapped(old, DrawKind::Uuid)
        &&& exists|mid: NativeTestCase<D, O>, high: Result<u64, EngineError>|
            {
                &&& #[trigger] mid.drew_uniform(
                    old,
                    family,
                    0,
                    u64::MAX as int,
                    half_answer(high),
                )
                &&& match high {
                    Ok(high) => exists|low: Result<u64, EngineError>|
                        {
                            &&& #[trigger] new.within_span(mid).drew_uniform(
                                mid,
                                old.family_after(family),
                                least_half(high),
                                u64::MAX as int,
                                half_answer(low),
                            )
                            &&& new_family == mid.family_after(old.family_after(family))
                            &&& match (low, r) {
                                (Ok(low), Ok(bytes)) => bytes@ == uuid_bytes(
                                    high,
                                    low,
                                    version,
                                ),
                                (Err(e), Err(f)) => f == e,
                                _ => false,
                            }
                        },
                    Err(e) => r matches Err(f) && f == e && new_family == old.family_after(family),
                }
            }
    }
}

/// Draws a UUID, sixteen bytes.
///
/// The two halves are drawn one after the other; the second one is not zero
/// where the first one is, so that the nil UUID is never drawn.
pub fn generate_uuid<D: Distributions, O: DataObserver>(
    ntc: &mut NativeTestCase<D, O>,
    family: &mut FamilyCore,
    version: Option<u8>,
) -> (r: Result<Vec<u8>, EngineError>)
    ensures
        uuid_drawn(*final(ntc), *old(ntc), *old(family), *final(family), version, r),
{
    if let Some(v) = version {
        if v > 15 {
            return Err(
                EngineError::InvalidArgument(
                    String::from_str("generate_uuid requires the version to be a hex nibble"),
                ),
            );
        }
    }
    ntc.enter(family, DrawKind::Uuid);
    let first = ntc.draw_integer_uniform(family, 0, u64::MAX);
    let ghost mid = ntc.within_span(*old(ntc));
    assert(old(ntc).has_depth() ==> mid.drew_uniform(
        *old(ntc),
        *old(family),
        0,
        u64::MAX as int,
        half_answer(first),
    ));
    let high: u64 = match first {
        Ok(n) => n,
        Err(e) => {
            ntc.stop_span(false);
            return Err(e);
        },
    };
    let least: u64 = if high == 0 {
        1
    } else {
        0
    };
    let second = ntc.draw_integer_uniform(family, least, u64::MAX);
    assert(old(ntc).has_depth() ==> ntc.within_span(mid).drew_uniform(
        mid,
        old(ntc).family_after(*old(family)),
        least_half(high),
        u64::MAX as int,
        half_answer(second),
    ));
    ntc.stop_span(false);
    let low: u64 = match second {
        Ok(n) => n,
        Err(e) => {
            return Err(e);
        },
    };
    let mut bytes: Vec<u8> = Vec::new();
    append_big_endian(&mut bytes, high, 8);
    append_big_endian(&mut bytes, low, 8);
    proof {
        lemma_big_endian_length(high as int, 8);
        lemma_big_endian_length(low as int, 8);
        assert(bytes@ =~= big_endian(high as int, 8) + big_endian(low as int, 8));
    }
    if let Some(v) = version {
        let sixth: u8 = bytes[6] % 16;
        bytes.set(6, v * 16 + sixth);
        let eighth: u8 = bytes[8] % 64;
        bytes.set(8, 128 + eighth);
    }
    Ok(bytes)
}

/// The least number that the second half of a UUID may be.
pub open spec fn least_half(high: u64) -> int {
    if high == 0 {
        1
    } else {
        0
    }
}

/// The answer to a request for half of a UUID.
pub open spec fn half_answer(r: Result<u64, EngineError>) -> Result<ValueView, EngineError> {
    match r {
        Ok(v) => Ok(ValueView::Integer(v as int)),
        Err(e) => Err(e),
    }
}

/// Bytes that are all zero are those of zero.
proof fn lemma_zero_bytes(n: int, count: nat)
    requires
        0 <= n < vstd::arithmetic::power::pow(256, count),
        forall|i: int| 0 <= i < count ==> #[trigger] big_endian(n, count)[i] == 0,
    ensures
        n == 0,
    decreases count,
{
    vstd::arithmetic::power::lemma_pow0(256);
    if count > 0 {
        let rest = (count - 1) as nat;
        lemma_big_endian_length(n / 256, rest);
        assert(big_endian(n, count)[count - 1] == 0);
        assert(n / 256 < vstd::arithmetic::power::pow(256, rest)) by {
            reveal(vstd::arithmetic::power::pow);
            assert(vstd::arithmetic::power::pow(256, count) == 256 * vstd::arithmetic::power::pow(
                256,
                rest,
            ));
        }
        let next = big_endian(n / 256, rest);
        assert forall|i: int| 0 <= i < rest implies #[trigger] next[i] == 0 by {
            assert(big_endian(n, count)[i] == 0);
        }
        lemma_zero_bytes(n / 256, rest);
    }
}

/// The nil UUID is never drawn, and a version that was asked for is there,
/// with the variant of the standard.
pub proof fn lemma_uuids_are_proper(high: u64, low: u64, version: Option<u8>)
    requires
        high == 0 ==> low != 0,
        version matches Some(v) ==> v <= 15,
    ensures
        uuid_bytes(high, low, version).len() == 16,
        exists|i: int| 0 <= i < 16 && #[trigger] uuid_bytes(high, low, version)[i] != 0,
        version matches Some(v) ==> {
            &&& uuid_bytes(high, low, version)[6] as int / 16 == v
            &&& 8 <= uuid_bytes(high, low, version)[8] as int / 16 <= 11
        },
{
    lemma_big_endian_length(high as int, 8);
    lemma_big_endian_length(low as int, 8);
    let bytes = uuid_bytes(high, low, version);
    if version is Some {
        assert(bytes[8] != 0);
    } else if forall|i: int| 0 <= i < 16 ==> #[trigger] bytes[i] == 0 {
        assert(vstd::arithmetic::power::pow(256, 8) == 0x1_0000_0000_0000_0000) by {
            reveal_with_fuel(vstd::arithmetic::power::pow, 9);
        }
        let (first, second) = (big_endian(high as int, 8), big_endian(low as int, 8));
        assert forall|i: int| 0 <= i < 8 implies #[trigger] first[i] == 0 by {
            assert(bytes[i] == 0);
        }
        assert forall|i: int| 0 <= i < 8 implies #[trigger] second[i] == 0 by {
            assert(bytes[i + 8] == 0);
        }
        lemma_zero_bytes(high as int, 8);
        lemma_zero_bytes(low as int, 8);
    }
}

} // verus!
