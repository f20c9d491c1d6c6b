//! Draws of values.
use crate::abi::cases::draw_fault;
use crate::abi::cases::draw_guard;
use crate::abi::cases::drawn_from;
use crate::abi::cases::engine_fault;
use crate::abi::cases::size_arg;
use crate::abi::cases::tc_guard;
use crate::abi::cases::case_fault;
use crate::abi::cases::tell;
use crate::abi::cases::told;
use crate::abi::cases::translate_ds_error;
use crate::abi::cases::untouched;
use crate::abi::cases::FamilyShared;
use crate::abi::cases::HegelTestCase;
use crate::abi::fault;
use crate::abi::gave;
use crate::abi::hegel_result_t;
use crate::abi::shown;
use crate::abi::strings::HegelStringGenerator;
use crate::abi::FaultView;
use crate::abi::HegelContext;
use crate::bignum::BigInt;
use crate::bignum::BigUint;
use crate::choices::FloatValue;
use crate::choices::Probability;
use crate::choices::StringKind;
use crate::choices::ValueView;
use crate::civil::Date;
use crate::civil::DateTime;
use crate::civil::Time;
use crate::decimal::append_natural;
use crate::decimal::decimal;
use crate::draws::boolean_drawn;
use crate::draws::bytes_drawn;
use crate::draws::generate_boolean;
use crate::draws::generate_bytes;
use crate::draws::generate_integer;
use crate::draws::generate_string;
use crate::draws::integer_drawn;
use crate::draws::start_string;
use crate::draws::string_kind;
use crate::draws::text_drawn;
use crate::draws::StringSpec;
use crate::drawing::integer_range;
use crate::errors::bug_notice;
use crate::errors::EngineError;
use crate::float_draws::float_generated;
use crate::float_draws::generate_float;
use crate::float_draws::has_fallbacks;
use crate::floats::FloatArithmetic;
use crate::floats::FloatSpec;
use crate::family::FamilyCore;
use crate::labels::draw_name;
use crate::labels::fnv1a;
use crate::replay::lemma_draws_fit;
use crate::sampling::Distributions;
use crate::signed_bytes::from_signed_bytes_le;
use crate::signed_bytes::is_shortest;
use crate::signed_bytes::lemma_encodings_in_between_fit;
use crate::signed_bytes::lemma_sign_fill_keeps_the_value;
use crate::signed_bytes::sign_filled;
use crate::signed_bytes::signed_value;
use crate::signed_bytes::to_signed_bytes_le;
use crate::special::date_drawn;
use crate::special::datetime_drawn;
use crate::special::generate_date;
use crate::special::generate_datetime;
use crate::special::generate_time;
use crate::special::generate_uuid;
use crate::special::time_drawn;
use crate::special::uuid_drawn;
use crate::structure::closed_at;
use crate::test_case::DataObserver;
use crate::test_case::NativeTestCase;
use vstd::prelude::*;
use vstd::string::StringExecFns;

verus! {

/// A date, as callers write it.
#[allow(non_camel_case_types)]
#[derive(Clone, Copy, Debug, PartialEq, Eq, Structural)]
pub struct hegel_date_t {
    pub year: i32,
    pub month: u8,
    pub day: u8,
}

/// A time of day, as callers write it.
#[allow(non_camel_case_types)]
#[derive(Clone, Copy, Debug, PartialEq, Eq, Structural)]
pub struct hegel_time_t {
    pub hour: u8,
    pub minute: u8,
    pub second: u8,
    pub nanosecond: u32,
}

/// A date and a time of day, as callers write them.
#[allow(non_camel_case_types)]
#[derive(Clone, Copy, Debug, PartialEq, Eq, Structural)]
pub struct hegel_datetime_t {
    pub date: hegel_date_t,
    pub time: hegel_time_t,
}

/// Bytes that were drawn.
#[allow(non_camel_case_types)]
#[derive(Debug)]
pub struct hegel_generate_bytes_result_t {
    pub data: Vec<u8>,
}

/// A date that callers wrote.
pub open spec fn date_of(d: hegel_date_t) -> Date {
    Date { year: d.year, month: d.month, day: d.day }
}

/// A time that callers wrote.
pub open spec fn time_of(t: hegel_time_t) -> Time {
    Time { hour: t.hour, minute: t.minute, second: t.second, nanosecond: t.nanosecond }
}

/// A date and a time that callers wrote.
pub open spec fn datetime_of(v: hegel_datetime_t) -> DateTime {
    DateTime { date: date_of(v.date), time: time_of(v.time) }
}

/// A date that callers wrote.
pub fn rust_date(d: &hegel_date_t) -> (r: Date)
    ensures
        r == date_of(*d),
{
    Date { year: d.year, month: d.month, day: d.day }
}

/// A time that callers wrote.
pub fn rust_time(t: &hegel_time_t) -> (r: Time)
    ensures
        r == time_of(*t),
{
    Time { hour: t.hour, minute: t.minute, second: t.second, nanosecond: t.nanosecond }
}

/// A date and a time that callers wrote.
pub fn rust_datetime(v: &hegel_datetime_t) -> (r: DateTime)
    ensures
        r == datetime_of(*v),
{
    DateTime { date: rust_date(&v.date), time: rust_time(&v.time) }
}

/// A date, as callers read it.
pub fn c_date(d: Date) -> (r: hegel_date_t)
    ensures
        date_of(r) == d,
{
    hegel_date_t { year: d.year, month: d.month, day: d.day }
}

/// A time, as callers read it.
pub fn c_time(t: Time) -> (r: hegel_time_t)
    ensures
        time_of(r) == t,
{
    hegel_time_t { hour: t.hour, minute: t.minute, second: t.second, nanosecond: t.nanosecond }
}

/// What a boolean is forced to be.
pub open spec fn forced_of(forced: bool, has_forced: bool) -> Option<bool> {
    if has_forced {
        Some(forced)
    } else {
        None
    }
}

/// A size that may not fit.
pub open spec fn size_of(v: u64) -> usize {
    if v <= usize::MAX {
        v as usize
    } else {
        usize::MAX
    }
}

/// A version that may not be asked for.
pub open spec fn version_of(version: u8, has_version: bool) -> Option<u8> {
    if has_version {
        Some(version)
    } else {
        None
    }
}

/// Draws a boolean that is true with probability `p`, which is `written` in what
/// is said of it.
pub fn hegel_generate_boolean<D: Distributions, O: DataObserver>(
    ctx: &mut HegelContext,
    tc: Option<&HegelTestCase>,
    family: &mut FamilyShared,
    stream: &mut NativeTestCase<D, O>,
    p: Probability,
    written: &str,
    forced: bool,
    has_forced: bool,
    out_is_null: bool,
) -> (r: Result<bool, hegel_result_t>)
    ensures
        match draw_fault("hegel_generate_boolean"@, tc, old(family).completed, out_is_null) {
            Some(f) => {
                &&& r matches Err(code) && code == f.code
                &&& final(ctx)@ == shown(f.message)
                &&& untouched(*final(family), *old(family), *final(stream), *old(stream))
            },
            None => {
                &&& drawn_from(*final(family), *old(family))
                &&& exists|drawn: Result<bool, EngineError>|
                    {
                        &&& #[trigger] boolean_drawn(
                            *final(stream),
                            *old(stream),
                            old(family).core,
                            final(family).core,
                            p,
                            written@,
                            forced_of(forced, has_forced),
                            drawn,
                        )
                        &&& told(*final(ctx), r, drawn)
                    }
            },
        },
{
    if let Err(code) = draw_guard(ctx, "hegel_generate_boolean", tc, family.completed, out_is_null) {
        return Err(code);
    }
    let drawn = generate_boolean(
        stream,
        &mut family.core,
        p,
        written,
        if has_forced {
            Some(forced)
        } else {
            None
        },
    );
    assert(boolean_drawn(
        *stream,
        *old(stream),
        old(family).core,
        family.core,
        p,
        written@,
        forced_of(forced, has_forced),
        drawn,
    ));
    tell(ctx, drawn)
}

/// Draws a floating-point value. The range falls back on `simplest`, and on
/// `unit` where that does not fit.
pub fn hegel_generate_float<D: Distributions, O: DataObserver, F: FloatArithmetic>(
    ctx: &mut HegelContext,
    tc: Option<&HegelTestCase>,
    family: &mut FamilyShared,
    stream: &mut NativeTestCase<D, O>,
    spec: FloatSpec,
    simplest: FloatValue,
    unit: FloatValue,
    arithmetic: &F,
    out_is_null: bool,
) -> (r: Result<FloatValue, hegel_result_t>)
    requires
        has_fallbacks(spec, simplest, unit),
    ensures
        match draw_fault("hegel_generate_float"@, tc, old(family).completed, out_is_null) {
            Some(f) => {
                &&& r matches Err(code) && code == f.code
                &&& final(ctx)@ == shown(f.message)
                &&& untouched(*final(family), *old(family), *final(stream), *old(stream))
            },
            None => {
                &&& drawn_from(*final(family), *old(family))
                &&& exists|drawn: Result<FloatValue, EngineError>|
                    {
                        &&& #[trigger] float_generated(
                            *arithmetic,
                            *final(stream),
                            *old(stream),
                            old(family).core,
                            final(family).core,
                            spec,
                            simplest,
                            unit,
                            drawn,
                        )
                        &&& told(*final(ctx), r, drawn)
                    }
            },
        },
{
    if let Err(code) = draw_guard(ctx, "hegel_generate_float", tc, family.completed, out_is_null) {
        return Err(code);
    }
    let drawn = generate_float(stream, &mut family.core, spec, simplest, unit, arithmetic);
    assert(float_generated(
        *arithmetic,
        *stream,
        *old(stream),
        old(family).core,
        family.core,
        spec,
        simplest,
        unit,
        drawn,
    ));
    tell(ctx, drawn)
}

/// Draws bytes.
pub fn hegel_generate_bytes<D: Distributions, O: DataObserver>(
    ctx: &mut HegelContext,
    tc: Option<&HegelTestCase>,
    family: &mut FamilyShared,
    stream: &mut NativeTestCase<D, O>,
    min_size: u64,
    max_size: u64,
    out_is_null: bool,
) -> (r: Result<hegel_generate_bytes_result_t, hegel_result_t>)
    ensures
        match draw_fault("hegel_generate_bytes"@, tc, old(family).completed, out_is_null) {
            Some(f) => {
                &&& r matches Err(code) && code == f.code
                &&& final(ctx)@ == shown(f.message)
                &&& untouched(*final(family), *old(family), *final(stream), *old(stream))
            },
            None => {
                &&& drawn_from(*final(family), *old(family))
                &&& exists|drawn: Result<Vec<u8>, EngineError>|
                    {
                        &&& #[trigger] bytes_drawn(
                            *final(stream),
                            *old(stream),
                            old(family).core,
                            final(family).core,
                            size_of(min_size),
                            size_of(max_size),
                            drawn,
                        )
                        &&& match (drawn, r) {
                            (Ok(d), Ok(v)) => v.data@ == d@ && final(ctx)@ == Seq::<char>::empty(),
                            (Err(e), Err(code)) => code == engine_fault(e).code && final(ctx)@
                                == shown(engine_fault(e).message),
                            _ => false,
                        }
                    }
            },
        },
{
    if let Err(code) = draw_guard(ctx, "hegel_generate_bytes", tc, family.completed, out_is_null) {
        return Err(code);
    }
    let drawn = generate_bytes(stream, &mut family.core, size_arg(min_size), size_arg(max_size));
    assert(bytes_drawn(
        *stream,
        *old(stream),
        old(family).core,
        family.core,
        size_of(min_size),
        size_of(max_size),
        drawn,
    ));
    match drawn {
        Ok(d) => Ok(hegel_generate_bytes_result_t { data: d }),
        Err(e) => Err(translate_ds_error(ctx, e)),
    }
}

/// Draws a date.
pub fn hegel_generate_date<D: Distributions, O: DataObserver>(
    ctx: &mut HegelContext,
    tc: Option<&HegelTestCase>,
    family: &mut FamilyShared,
    stream: &mut NativeTestCase<D, O>,
    min_value: hegel_date_t,
    max_value: hegel_date_t,
    out_is_null: bool,
) -> (r: Result<hegel_date_t, hegel_result_t>)
    ensures
        match draw_fault("hegel_generate_date"@, tc, old(family).completed, out_is_null) {
            Some(f) => {
                &&& r matches Err(code) && code == f.code
                &&& final(ctx)@ == shown(f.message)
                &&& untouched(*final(family), *old(family), *final(stream), *old(stream))
            },
            None => {
                &&& drawn_from(*final(family), *old(family))
                &&& exists|drawn: Result<Date, EngineError>|
                    {
                        &&& #[trigger] date_drawn(
                            *final(stream),
                            *old(stream),
                            old(family).core,
                            final(family).core,
                            date_of(min_value),
                            date_of(max_value),
                            drawn,
                        )
                        &&& match (drawn, r) {
                            (Ok(d), Ok(v)) => date_of(v) == d && final(ctx)@ == Seq::<char>::empty(),
                            (Err(e), Err(code)) => code == engine_fault(e).code && final(ctx)@
                                == shown(engine_fault(e).message),
                            _ => false,
                        }
                    }
            },
        },
{
    if let Err(code) = draw_guard(ctx, "hegel_generate_date", tc, family.completed, out_is_null) {
        return Err(code);
    }
    let drawn = generate_date(stream, &mut family.core, rust_date(&min_value), rust_date(&max_value));
    assert(date_drawn(
        *stream,
        *old(stream),
        old(family).core,
        family.core,
        date_of(min_value),
        date_of(max_value),
        drawn,
    ));
    match drawn {
        Ok(d) => Ok(c_date(d)),
        Err(e) => Err(translate_ds_error(ctx, e)),
    }
}

/// Draws a time of day.
pub fn hegel_generate_time<D: Distributions, O: DataObserver>(
    ctx: &mut HegelContext,
    tc: Option<&HegelTestCase>,
    family: &mut FamilyShared,
    stream: &mut NativeTestCase<D, O>,
    min_value: hegel_time_t,
    max_value: hegel_time_t,
    out_is_null: bool,
) -> (r: Result<hegel_time_t, hegel_result_t>)
    ensures
        match draw_fault("hegel_generate_time"@, tc, old(family).completed, out_is_null) {
            Some(f) => {
                &&& r matches Err(code) && code == f.code
                &&& final(ctx)@ == shown(f.message)
                &&& untouched(*final(family), *old(family), *final(stream), *old(stream))
            },
            None => {
                &&& drawn_from(*final(family), *old(family))
                &&& exists|drawn: Result<Time, EngineError>|
                    {
                        &&& #[trigger] time_drawn(
                            *final(stream),
                            *old(stream),
                            old(family).core,
                            final(family).core,
                            time_of(min_value),
                            time_of(max_value),
                            drawn,
                        )
                        &&& match (drawn, r) {
                            (Ok(d), Ok(v)) => time_of(v) == d && final(ctx)@ == Seq::<char>::empty(),
                            (Err(e), Err(code)) => code == engine_fault(e).code && final(ctx)@
                                == shown(engine_fault(e).message),
                            _ => false,
                        }
                    }
            },
        },
{
    if let Err(code) = draw_guard(ctx, "hegel_generate_time", tc, family.completed, out_is_null) {
        return Err(code);
    }
    let drawn = generate_time(stream, &mut family.core, rust_time(&min_value), rust_time(&max_value));
    assert(time_drawn(
        *stream,
        *old(stream),
        old(family).core,
        family.core,
        time_of(min_value),
        time_of(max_value),
        drawn,
    ));
    match drawn {
        Ok(d) => Ok(c_time(d)),
        Err(e) => Err(translate_ds_error(ctx, e)),
    }
}

/// Draws a date and a time of day.
pub fn hegel_generate_datetime<D: Distributions, O: DataObserver>(
    ctx: &mut HegelContext,
    tc: Option<&HegelTestCase>,
    family: &mut FamilyShared,
    stream: &mut NativeTestCase<D, O>,
    min_value: hegel_datetime_t,
    max_value: hegel_datetime_t,
    out_is_null: bool,
) -> (r: Result<hegel_datetime_t, hegel_result_t>)
    ensures
        match draw_fault("hegel_generate_datetime"@, tc, old(family).completed, out_is_null) {
            Some(f) => {
                &&& r matches Err(code) && code == f.code
                &&& final(ctx)@ == shown(f.message)
                &&& untouched(*final(family), *old(family), *final(stream), *old(stream))
            },
            None => {
                &&& drawn_from(*final(family), *old(family))
                &&& exists|drawn: Result<DateTime, EngineError>|
                    {
                        &&& #[trigger] datetime_drawn(
                            *final(stream),
                            *old(stream),
                            old(family).core,
                            final(family).core,
                            datetime_of(min_value),
                            datetime_of(max_value),
                            drawn,
                        )
                        &&& match (drawn, r) {
                            (Ok(d), Ok(v)) => datetime_of(v) == d && final(ctx)@ == Seq::<char>::empty(),
                            (Err(e), Err(code)) => code == engine_fault(e).code && final(ctx)@
                                == shown(engine_fault(e).message),
                            _ => false,
                        }
                    }
            },
        },
{
    if let Err(code) = draw_guard(ctx, "hegel_generate_datetime", tc, family.completed, out_is_null) {
        return Err(code);
    }
    let drawn = generate_datetime(
        stream,
        &mut family.core,
        rust_datetime(&min_value),
        rust_datetime(&max_value),
    );
    assert(datetime_drawn(
        *stream,
        *old(stream),
        old(family).core,
        family.core,
        datetime_of(min_value),
        datetime_of(max_value),
        drawn,
    ));
    match drawn {
        Ok(d) => Ok(hegel_datetime_t { date: c_date(d.date), time: c_time(d.time) }),
        Err(e) => Err(translate_ds_error(ctx, e)),
    }
}

/// Draws a UUID.
pub fn hegel_generate_uuid<D: Distributions, O: DataObserver>(
    ctx: &mut HegelContext,
    tc: Option<&HegelTestCase>,
    family: &mut FamilyShared,
    stream: &mut NativeTestCase<D, O>,
    version: u8,
    has_version: bool,
    out_is_null: bool,
) -> (r: Result<Vec<u8>, hegel_result_t>)
    ensures
        match draw_fault("hegel_generate_uuid"@, tc, old(family).completed, out_is_null) {
            Some(f) => {
                &&& r matches Err(code) && code == f.code
                &&& final(ctx)@ == shown(f.message)
                &&& untouched(*final(family), *old(family), *final(stream), *old(stream))
            },
            None => {
                &&& drawn_from(*final(family), *old(family))
                &&& exists|drawn: Result<Vec<u8>, EngineError>|
                    {
                        &&& #[trigger] uuid_drawn(
                            *final(stream),
                            *old(stream),
                            old(family).core,
                            final(family).core,
                            version_of(version, has_version),
                            drawn,
                        )
                        &&& told(*final(ctx), r, drawn)
                    }
            },
        },
{
    if let Err(code) = draw_guard(ctx, "hegel_generate_uuid", tc, family.completed, out_is_null) {
        return Err(code);
    }
    let drawn = generate_uuid(
        stream,
        &mut family.core,
        if has_version {
            Some(version)
        } else {
            None
        },
    );
    assert(uuid_drawn(
        *stream,
        *old(stream),
        old(family).core,
        family.core,
        version_of(version, has_version),
        drawn,
    ));
    tell(ctx, drawn)
}

/// Whether a call told of the bytes of an address that was drawn. It is an internal
/// error where there are not `n` of them.
pub open spec fn address_told(
    ctx: HegelContext,
    r: Result<Vec<u8>, hegel_result_t>,
    drawn: Result<Vec<u8>, EngineError>,
    n: int,
) -> bool {
    if drawn matches Ok(bytes) && bytes@.len() != n {
        &&& r matches Err(code)
        &&& code == hegel_result_t::HEGEL_E_INTERNAL
        &&& ctx@ == shown("address with a wrong number of bytes"@ + bug_notice())
    } else {
        told(ctx, r, drawn)
    }
}

/// Tells of the bytes of an address.
fn tell_address(ctx: &mut HegelContext, drawn: Result<Vec<u8>, EngineError>, n: usize) -> (r:
    Result<Vec<u8>, hegel_result_t>)
    requires
        old(ctx)@ == Seq::<char>::empty(),
    ensures
        address_told(*final(ctx), r, drawn, n as int),
{
    match drawn {
        Ok(bytes) => if bytes.len() != n {
            tell(ctx, Err(EngineError::internal("address with a wrong number of bytes")))
        } else {
            tell(ctx, Ok(bytes))
        },
        Err(e) => tell(ctx, Err(e)),
    }
}

/// Hands out an IPv4 address that was `drawn`, as its bytes in network order.
pub fn hegel_generate_ipv4(
    ctx: &mut HegelContext,
    tc: Option<&HegelTestCase>,
    completed: bool,
    drawn: Result<Vec<u8>, EngineError>,
    out_is_null: bool,
) -> (r: Result<Vec<u8>, hegel_result_t>)
    ensures
        match draw_fault("hegel_generate_ipv4"@, tc, completed, out_is_null) {
            Some(f) => r matches Err(code) && code == f.code && final(ctx)@ == shown(f.message),
            None => address_told(*final(ctx), r, drawn, 4),
        },
{
    if let Err(code) = draw_guard(ctx, "hegel_generate_ipv4", tc, completed, out_is_null) {
        return Err(code);
    }
    tell_address(ctx, drawn, 4)
}

/// Hands out an IPv6 address that was `drawn`, as its bytes in network order.
pub fn hegel_generate_ipv6(
    ctx: &mut HegelContext,
    tc: Option<&HegelTestCase>,
    completed: bool,
    drawn: Result<Vec<u8>, EngineError>,
    out_is_null: bool,
) -> (r: Result<Vec<u8>, hegel_result_t>)
    ensures
        match draw_fault("hegel_generate_ipv6"@, tc, completed, out_is_null) {
            Some(f) => r matches Err(code) && code == f.code && final(ctx)@ == shown(f.message),
            None => address_told(*final(ctx), r, drawn, 16),
        },
{
    if let Err(code) = draw_guard(ctx, "hegel_generate_ipv6", tc, completed, out_is_null) {
        return Err(code);
    }
    tell_address(ctx, drawn, 16)
}

/// Draws an integer.
pub fn hegel_generate_integer<D: Distributions, O: DataObserver>(
    ctx: &mut HegelContext,
    tc: Option<&HegelTestCase>,
    family: &mut FamilyShared,
    stream: &mut NativeTestCase<D, O>,
    min_value: i64,
    max_value: i64,
    out_is_null: bool,
) -> (r: Result<i64, hegel_result_t>)
    ensures
        match draw_fault("hegel_generate_integer"@, tc, old(family).completed, out_is_null) {
            Some(f) => {
                &&& r matches Err(code) && code == f.code
                &&& final(ctx)@ == shown(f.message)
                &&& untouched(*final(family), *old(family), *final(stream), *old(stream))
            },
            None => {
                &&& drawn_from(*final(family), *old(family))
                &&& r matches Ok(v) ==> min_value <= v <= max_value
                &&& exists|min: BigInt, max: BigInt, drawn: Result<BigInt, EngineError>|
                    {
                        &&& min@ == min_value && max@ == max_value
                        &&& #[trigger] integer_drawn(
                            *final(stream),
                            *old(stream),
                            old(family).core,
                            final(family).core,
                            min,
                            max,
                            drawn,
                        )
                        &&& match (drawn, r) {
                            (Ok(d), Ok(v)) => d@ == v && final(ctx)@ == Seq::<char>::empty(),
                            (Err(e), Err(code)) => code == engine_fault(e).code && final(ctx)@
                                == shown(engine_fault(e).message),
                            _ => false,
                        }
                    }
            },
        },
{
    if let Err(code) = draw_guard(
        ctx,
        "hegel_generate_integer",
        tc,
        family.completed,
        out_is_null,
    ) {
        return Err(code);
    }
    let min = BigInt::from_i64(min_value);
    let max = BigInt::from_i64(max_value);
    let drawn = generate_integer(stream, &mut family.core, &min, &max);
    assert(integer_drawn(
        *stream,
        *old(stream),
        old(family).core,
        family.core,
        min,
        max,
        drawn,
    ));
    match drawn {
        Ok(n) => {
            proof {
                lemma_integer_in_range(
                    *stream,
                    *old(stream),
                    old(family).core,
                    family.core,
                    min,
                    max,
                    n,
                );
            }
            let v: i64 = match n.to_i64() {
                Some(v) => v,
                None => 0,
            };
            Ok(v)
        },
        Err(e) => Err(translate_ds_error(ctx, e)),
    }
}

/// An integer that was drawn lies between the bounds.
pub proof fn lemma_integer_in_range<D: Distributions, O: DataObserver>(
    new: NativeTestCase<D, O>,
    old: NativeTestCase<D, O>,
    family: FamilyCore,
    new_family: FamilyCore,
    min: BigInt,
    max: BigInt,
    n: BigInt,
)
    requires
        integer_drawn(new, old, family, new_family, min, max, Ok(n)),
    ensures
        min@ <= n@ <= max@,
{
    lemma_draws_fit(
        new.within_span(old),
        old,
        family,
        integer_range(min@, max@),
        ValueView::Integer(n@),
    );
}

/// What is wrong with a call that draws a large integer.
pub open spec fn big_fault(
    tc: Option<&HegelTestCase>,
    completed: bool,
    min_value: Option<Seq<u8>>,
    max_value: Option<Seq<u8>>,
    out_is_null: bool,
) -> Option<FaultView> {
    let func = "hegel_generate_integer_big"@;
    match case_fault(func, tc, completed) {
        Some(f) => Some(f),
        None => match (min_value, max_value) {
            (None, _) => fault(
                hegel_result_t::HEGEL_E_INVALID_ARG,
                func + ": min_value pointer is null"@,
            ),
            (_, None) => fault(
                hegel_result_t::HEGEL_E_INVALID_ARG,
                func + ": max_value pointer is null"@,
            ),
            (Some(min), Some(max)) => if min.len() == 0 || max.len() == 0 {
                fault(
                    hegel_result_t::HEGEL_E_INVALID_ARG,
                    func + ": bound encodings must not be empty"@,
                )
            } else if out_is_null {
                fault(hegel_result_t::HEGEL_E_INVALID_ARG, func + ": out parameter is null"@)
            } else {
                None
            },
        },
    }
}

/// What is said of a buffer that is too small.
pub open spec fn small_buffer(need: nat, have: usize) -> Seq<char> {
    ": out buffer too small (need "@ + decimal(need) + ", have "@ + decimal(have as nat) + ")"@
}

/// The view of optional bytes.
pub open spec fn bytes_arg(b: Option<&[u8]>) -> Option<Seq<u8>> {
    match b {
        Some(b) => Some(b@),
        None => None,
    }
}

/// What a large integer is handed out as: the whole buffer, and how many bytes
/// of it are needed.
pub open spec fn handed_out(
    n: int,
    bytes: Seq<u8>,
    ctx: HegelContext,
    r: Result<(Vec<u8>, usize), hegel_result_t>,
    cap: usize,
) -> bool {
    &&& signed_value(bytes) == n
    &&& is_shortest(bytes)
    &&& if bytes.len() > cap {
        &&& r matches Err(code) && code == hegel_result_t::HEGEL_E_INVALID_ARG
        &&& ctx@ == shown("hegel_generate_integer_big"@ + small_buffer(bytes.len(), cap))
    } else {
        &&& r matches Ok((buffer, len)) && len == bytes.len() && buffer@ == sign_filled(
            bytes,
            cap as nat,
        )
        &&& ctx@ == Seq::<char>::empty()
    }
}

/// A buffer that holds the longer one of the bounds holds every integer
/// between them.
pub proof fn lemma_buffer_of_the_bounds_suffices(
    min: Seq<u8>,
    max: Seq<u8>,
    n: int,
    bytes: Seq<u8>,
    ctx: HegelContext,
    r: Result<(Vec<u8>, usize), hegel_result_t>,
    cap: usize,
)
    requires
        1 <= min.len() <= cap,
        1 <= max.len() <= cap,
        signed_value(min) <= n <= signed_value(max),
        handed_out(n, bytes, ctx, r, cap),
    ensures
        r is Ok,
        signed_value(r->Ok_0.0@) == n,
{
    lemma_encodings_in_between_fit(min, max, bytes);
    lemma_sign_fill_keeps_the_value(bytes, cap as nat);
}

/// Fills in the sign up to a length.
fn fill_sign(bytes: Vec<u8>, cap: usize) -> (r: Vec<u8>)
    requires
        1 <= bytes@.len() <= cap,
    ensures
        r@ == sign_filled(bytes@, cap as nat),
{
    let mut out = bytes;
    let n: usize = out.len();
    let fill: u8 = if out[n - 1] >= 128 {
        255
    } else {
        0
    };
    while out.len() < cap
        invariant
            n <= out@.len() <= cap,
            n == bytes@.len(),
            n >= 1,
            fill == if bytes@.last() >= 128 {
                255u8
            } else {
                0u8
            },
            out@ == sign_filled(bytes@, out@.len()),
        decreases cap - out@.len(),
    {
        let ghost before = out@.len();
        out.push(fill);
        assert(out@ =~= sign_filled(bytes@, before + 1));
    }
    out
}

/// Draws an integer between bounds that are given as two's-complement
/// little-endian bytes, and hands it out in the same way.
///
/// The result is the whole buffer of `out_value_cap` bytes, in which the sign
/// is filled in, and how many bytes are needed at least.
pub fn hegel_generate_integer_big<D: Distributions, O: DataObserver>(
    ctx: &mut HegelContext,
    tc: Option<&HegelTestCase>,
    family: &mut FamilyShared,
    stream: &mut NativeTestCase<D, O>,
    min_value: Option<&[u8]>,
    max_value: Option<&[u8]>,
    out_value_cap: usize,
    out_is_null: bool,
) -> (r: Result<(Vec<u8>, usize), hegel_result_t>)
    ensures
        match big_fault(
            tc,
            old(family).completed,
            bytes_arg(min_value),
            bytes_arg(max_value),
            out_is_null,
        ) {
            Some(f) => {
                &&& r matches Err(code) && code == f.code
                &&& final(ctx)@ == shown(f.message)
                &&& untouched(*final(family), *old(family), *final(stream), *old(stream))
            },
            None => {
                &&& drawn_from(*final(family), *old(family))
                &&& exists|min: BigInt, max: BigInt, drawn: Result<BigInt, EngineError>|
                    {
                        &&& min@ == signed_value(min_value->0@)
                        &&& max@ == signed_value(max_value->0@)
                        &&& #[trigger] integer_drawn(
                            *final(stream),
                            *old(stream),
                            old(family).core,
                            final(family).core,
                            min,
                            max,
                            drawn,
                        )
                        &&& match drawn {
                            Ok(n) => exists|bytes: Seq<u8>|
                                #[trigger] handed_out(n@, bytes, *final(ctx), r, out_value_cap),
                            Err(e) => {
                                &&& r matches Err(code) && code == engine_fault(e).code
                                &&& final(ctx)@ == shown(engine_fault(e).message)
                            },
                        }
                    }
            },
        },
{
    if let Err(code) = tc_guard(ctx, "hegel_generate_integer_big", tc, family.completed) {
        return Err(code);
    }
    let min_bytes = match min_value {
        Some(b) => b,
        None => {
            return Err(
                ctx.fail(
                    hegel_result_t::HEGEL_E_INVALID_ARG,
                    "hegel_generate_integer_big",
                    ": min_value pointer is null",
                ),
            );
        },
    };
    let max_bytes = match max_value {
        Some(b) => b,
        None => {
            return Err(
                ctx.fail(
                    hegel_result_t::HEGEL_E_INVALID_ARG,
                    "hegel_generate_integer_big",
                    ": max_value pointer is null",
                ),
            );
        },
    };
    if min_bytes.len() == 0 || max_bytes.len() == 0 {
        return Err(
            ctx.fail(
                hegel_result_t::HEGEL_E_INVALID_ARG,
                "hegel_generate_integer_big",
                ": bound encodings must not be empty",
            ),
        );
    }
    if out_is_null {
        return Err(
            ctx.fail(
                hegel_result_t::HEGEL_E_INVALID_ARG,
                "hegel_generate_integer_big",
                ": out parameter is null",
            ),
        );
    }
    let min = from_signed_bytes_le(min_bytes);
    let max = from_signed_bytes_le(max_bytes);
    let drawn = generate_integer(stream, &mut family.core, &min, &max);
    assert(integer_drawn(
        *stream,
        *old(stream),
        old(family).core,
        family.core,
        min,
        max,
        drawn,
    ));
    let n = match drawn {
        Ok(n) => n,
        Err(e) => {
            return Err(translate_ds_error(ctx, e));
        },
    };
    let bytes = to_signed_bytes_le(&n);
    let ghost encoded = bytes@;
    let len: usize = bytes.len();
    let r = if len > out_value_cap {
        let mut what = String::from_str(": out buffer too small (need ");
        append_natural(&mut what, &BigUint::from_u128(len as u128));
        what.append(", have ");
        append_natural(&mut what, &BigUint::from_u128(out_value_cap as u128));
        what.append(")");
        Err(
            ctx.fail(
                hegel_result_t::HEGEL_E_INVALID_ARG,
                "hegel_generate_integer_big",
                what.as_str(),
            ),
        )
    } else {
        Ok((fill_sign(bytes, out_value_cap), len))
    };
    assert(handed_out(n@, encoded, *ctx, r, out_value_cap));
    r
}

/// What is wrong with a call that draws a string.
pub open spec fn string_draw_fault(
    tc: Option<&HegelTestCase>,
    completed: bool,
    missing: bool,
    out_is_null: bool,
) -> Option<FaultView> {
    let func = "hegel_generate_string"@;
    match case_fault(func, tc, completed) {
        Some(f) => Some(f),
        None => if missing {
            fault(hegel_result_t::HEGEL_E_INVALID_HANDLE, func + ": generator handle is null"@)
        } else if out_is_null {
            fault(hegel_result_t::HEGEL_E_INVALID_ARG, func + ": out parameter is null"@)
        } else {
            None
        },
    }
}

/// Lets the draw of a string begin. The answer is whether the generator of such
/// strings has to draw it now, in the span that was opened for it.
pub fn start_string_draw<D: Distributions, O: DataObserver>(
    ctx: &mut HegelContext,
    tc: Option<&HegelTestCase>,
    family: &mut FamilyShared,
    stream: &mut NativeTestCase<D, O>,
    generator: Option<&HegelStringGenerator>,
    out_is_null: bool,
) -> (r: Result<bool, hegel_result_t>)
    ensures
        match string_draw_fault(tc, old(family).completed, generator is None, out_is_null) {
            Some(f) => {
                &&& r matches Err(code) && code == f.code
                &&& final(ctx)@ == shown(f.message)
                &&& untouched(*final(family), *old(family), *final(stream), *old(stream))
            },
            None => {
                &&& generator matches Some(g)
                &&& r == Ok::<bool, hegel_result_t>(!(g.spec is Text))
                &&& final(ctx)@ == Seq::<char>::empty()
                &&& drawn_from(*final(family), *old(family))
                &&& if g.spec is Text {
                    untouched(*final(family), *old(family), *final(stream), *old(stream))
                } else {
                    final(stream).span_started(
                        *old(stream),
                        old(family).core,
                        final(family).core,
                        fnv1a(draw_name(string_kind(g.spec))),
                    )
                }
            },
        },
{
    if let Err(code) = string_draw_guard(ctx, tc, family.completed, generator.is_none(), out_is_null) {
        return Err(code);
    }
    match generator {
        Some(g) => Ok(start_string(stream, &mut family.core, &g.spec)),
        None => Err(hegel_result_t::HEGEL_E_INVALID_HANDLE),
    }
}

/// Lets the draw of a string through.
fn string_draw_guard(
    ctx: &mut HegelContext,
    tc: Option<&HegelTestCase>,
    completed: bool,
    missing: bool,
    out_is_null: bool,
) -> (r: Result<(), hegel_result_t>)
    ensures
        gave(*final(ctx), r, string_draw_fault(tc, completed, missing, out_is_null), ()),
{
    if let Err(code) = tc_guard(ctx, "hegel_generate_string", tc, completed) {
        return Err(code);
    }
    if missing {
        return Err(
            ctx.fail(
                hegel_result_t::HEGEL_E_INVALID_HANDLE,
                "hegel_generate_string",
                ": generator handle is null",
            ),
        );
    }
    if out_is_null {
        return Err(
            ctx.fail(
                hegel_result_t::HEGEL_E_INVALID_ARG,
                "hegel_generate_string",
                ": out parameter is null",
            ),
        );
    }
    Ok(())
}

/// Draws a string. One that is no text was `drawn` by its generator, in the span
/// that [`start_string_draw`] opened.
pub fn hegel_generate_string<D: Distributions, O: DataObserver>(
    ctx: &mut HegelContext,
    tc: Option<&HegelTestCase>,
    family: &mut FamilyShared,
    stream: &mut NativeTestCase<D, O>,
    generator: Option<&mut HegelStringGenerator>,
    drawn: Result<String, EngineError>,
    out_is_null: bool,
) -> (r: Result<String, hegel_result_t>)
    requires
        match generator {
            Some(g) => g.spec.wf(),
            None => true,
        },
    ensures
        match string_draw_fault(tc, old(family).completed, generator is None, out_is_null) {
            Some(f) => {
                &&& r matches Err(code) && code == f.code
                &&& final(ctx)@ == shown(f.message)
                &&& untouched(*final(family), *old(family), *final(stream), *old(stream))
            },
            None => match generator {
                Some(g) => match g.spec {
                    StringSpec::Text { intervals, min_size, max_size } => {
                        &&& drawn_from(*final(family), *old(family))
                        &&& exists|text: Result<String, EngineError>|
                            {
                                &&& #[trigger] text_drawn(
                                    *final(stream),
                                    *old(stream),
                                    old(family).core,
                                    final(family).core,
                                    StringKind { alphabet: intervals@, min_size, max_size },
                                    text,
                                )
                                &&& told(*final(ctx), r, text)
                            }
                    },
                    _ => {
                        &&& told(*final(ctx), r, drawn)
                        &&& *final(family) == *old(family)
                        &&& *final(stream) == (NativeTestCase {
                            structure: final(stream).structure,
                            ..*old(stream)
                        })
                        &&& final(stream).structure@ == closed_at(
                            old(stream).structure@,
                            old(stream).nodes@.len() as usize,
                            false,
                        )
                    },
                },
                None => true,
            },
        },
        match generator {
            Some(g) => final(g).spec.wf(),
            None => true,
        },
{
    if let Err(code) = string_draw_guard(ctx, tc, family.completed, generator.is_none(), out_is_null) {
        return Err(code);
    }
    match generator {
        Some(g) => {
            let r = generate_string(stream, &mut family.core, &mut g.spec, drawn);
            tell(ctx, r)
        },
        None => Err(hegel_result_t::HEGEL_E_INVALID_HANDLE),
    }
}

} // verus!
