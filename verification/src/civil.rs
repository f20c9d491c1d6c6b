//! Dates of the proleptic Gregorian calendar and times of day.
use vstd::prelude::*;

verus! {

/// A date.
#[derive(Clone, Copy, Debug, PartialEq, Eq, Structural)]
pub struct Date {
    pub year: i32,
    pub month: u8,
    pub day: u8,
}

/// A time of day.
#[derive(Clone, Copy, Debug, PartialEq, Eq, Structural)]
pub struct Time {
    pub hour: u8,
    pub minute: u8,
    pub second: u8,
    pub nanosecond: u32,
}

/// A date and a time of day, of no time zone.
#[derive(Clone, Copy, Debug, PartialEq, Eq, Structural)]
pub struct DateTime {
    pub date: Date,
    pub time: Time,
}

/// The largest year; the smallest is its negative.
pub const MAX_YEAR: i32 = 999999;

/// The number of the first day of the smallest year.
pub const FIRST_DAY: i64 = -365961662;

/// The number of the last day of the largest year.
pub const LAST_DAY: i64 = 364522971;

/// How many nanoseconds a day has.
pub const DAY_NANOSECONDS: u64 = 86_400_000_000_000;

/// Whether a year has 366 days.
pub open spec fn is_leap(year: int) -> bool {
    year % 4 == 0 && (year % 100 != 0 || year % 400 == 0)
}

/// How many days a month has.
pub open spec fn month_length(year: int, month: int) -> int {
    if month == 2 {
        if is_leap(year) {
            29
        } else {
            28
        }
    } else if month == 4 || month == 6 || month == 9 || month == 11 {
        30
    } else {
        31
    }
}

/// How many days of a year lie before a month.
pub open spec fn month_start(year: int, month: int) -> int
    decreases month,
{
    if month <= 1 {
        0
    } else {
        month_start(year, month - 1) + month_length(year, month - 1)
    }
}

/// How many leap years lie in `[1, year)`, counted backwards for years before
/// the first.
pub open spec fn leaps_before(year: int) -> int {
    (year - 1) / 4 - (year - 1) / 100 + (year - 1) / 400
}

/// The number of the first day of a year. Day zero is 1970-01-01.
pub open spec fn year_start(year: int) -> int {
    365 * (year - 1970) + leaps_before(year) - leaps_before(1970)
}

/// The number of a day.
pub open spec fn day_number(date: Date) -> int {
    year_start(date.year as int) + month_start(date.year as int, date.month as int) + date.day - 1
}

/// Whether there is such a date.
pub open spec fn is_date(date: Date) -> bool {
    &&& -MAX_YEAR <= date.year <= MAX_YEAR
    &&& 1 <= date.month <= 12
    &&& 1 <= date.day <= month_length(date.year as int, date.month as int)
}

/// Whether there is such a time.
pub open spec fn is_time(time: Time) -> bool {
    time.hour < 24 && time.minute < 60 && time.second < 60 && time.nanosecond < 1_000_000_000
}

/// How many nanoseconds a time lies after midnight.
pub open spec fn nanoseconds(time: Time) -> int {
    ((time.hour * 60 + time.minute) * 60 + time.second) * 1_000_000_000 + time.nanosecond
}

/// A year is followed by the next one: its number of days, which is 366 for
/// leap years, lies between their first days.
pub proof fn lemma_years_follow(year: int)
    ensures
        year_start(year + 1) == year_start(year) + if is_leap(year) {
            366int
        } else {
            365
        },
        year_start(1970) == 0,
{
    lemma_step(year, 4);
    lemma_step(year, 100);
    lemma_step(year, 400);
    lemma_multiples(year);
}

/// A quotient steps up where the divisor divides.
proof fn lemma_step(n: int, d: int)
    requires
        d > 1,
    ensures
        n / d == (n - 1) / d + if n % d == 0 {
            1int
        } else {
            0
        },
{
    let (q, r) = (n / d, n % d);
    vstd::arithmetic::div_mod::lemma_fundamental_div_mod(n, d);
    vstd::arithmetic::div_mod::lemma_mod_bound(n, d);
    if r == 0 {
        assert((q - 1) * d + (d - 1) == n - 1) by (nonlinear_arith)
            requires
                n == d * q,
        ;
        vstd::arithmetic::div_mod::lemma_fundamental_div_mod_converse(n - 1, d, q - 1, d - 1);
    } else {
        assert(q * d + (r - 1) == n - 1) by (nonlinear_arith)
            requires
                n == d * q + r,
        ;
        vstd::arithmetic::div_mod::lemma_fundamental_div_mod_converse(n - 1, d, q, r - 1);
    }
}

/// What 100 divides, four divides too, and what 400 divides, 100 does.
proof fn lemma_multiples(n: int)
    ensures
        n % 100 == 0 ==> n % 4 == 0,
        n % 400 == 0 ==> n % 100 == 0,
{
}

/// The months of a year fill it.
pub proof fn lemma_months_fill_the_year(year: int)
    ensures
        month_start(year, 12) + month_length(year, 12) == year_start(year + 1) - year_start(year),
        month_start(year, 1) == 0,
        month_start(year, 2) == 31,
        forall|m: int|
            3 <= m <= 12 ==> #[trigger] month_start(year, m) == month_start(2001, m) + if is_leap(
                year,
            ) {
                1int
            } else {
                0
            },
{
    lemma_years_follow(year);
    reveal_with_fuel(month_start, 13);
}

/// Later years start later.
proof fn lemma_years_ascend(a: int, b: int)
    requires
        a < b,
    ensures
        year_start(a + 1) <= year_start(b),
    decreases b - a,
{
    if a + 1 < b {
        lemma_years_follow(b - 1);
        lemma_years_ascend(a, b - 1);
    }
}

/// Later months of a year start later.
proof fn lemma_months_ascend(year: int, a: int, b: int)
    requires
        1 <= a < b <= 13,
    ensures
        month_start(year, a) + month_length(year, a) <= month_start(year, b),
    decreases b,
{
    if a + 1 < b {
        lemma_months_ascend(year, a, b - 1);
    }
}

/// A day lies within its year.
proof fn lemma_day_in_year(date: Date)
    requires
        is_date(date),
    ensures
        year_start(date.year as int) <= day_number(date) < year_start(date.year + 1),
        month_start(date.year as int, date.month as int) >= 0,
        FIRST_DAY <= day_number(date) <= LAST_DAY,
{
    let (y, m) = (date.year as int, date.month as int);
    lemma_months_fill_the_year(y);
    if m < 12 {
        lemma_months_ascend(y, m, 12);
    }
    if m > 1 {
        lemma_months_ascend(y, 1, m);
    }
    if y < MAX_YEAR {
        lemma_years_ascend(y, MAX_YEAR + 1);
    }
    if y > -MAX_YEAR {
        lemma_years_ascend(-MAX_YEAR - 1, y);
    }
}

/// Days are numbered in the order of the calendar: the later of two dates has
/// the larger number, so a day has one date.
pub proof fn lemma_days_are_in_order(a: Date, b: Date)
    requires
        is_date(a),
        is_date(b),
    ensures
        day_number(a) < day_number(b) <==> (a.year < b.year || a.year == b.year && (a.month
            < b.month || a.month == b.month && a.day < b.day)),
        day_number(a) == day_number(b) <==> a == b,
{
    lemma_day_in_year(a);
    lemma_day_in_year(b);
    if a.year < b.year {
        lemma_years_ascend(a.year as int, b.year as int);
    } else if b.year < a.year {
        lemma_years_ascend(b.year as int, a.year as int);
    } else if a.month < b.month {
        lemma_months_ascend(a.year as int, a.month as int, b.month as int);
    } else if b.month < a.month {
        lemma_months_ascend(a.year as int, b.month as int, a.month as int);
    }
}

/// The last day of a month is followed by the first of the next one.
pub proof fn lemma_months_follow(year: int, month: int)
    requires
        1 <= month < 12,
    ensures
        month_start(year, month + 1) == month_start(year, month) + month_length(year, month),
{
}

/// How many days a month has.
pub fn days_in_month(year: i32, month: u8) -> (r: i64)
    ensures
        r == month_length(year as int, month as int),
{
    if month == 2 {
        let y: i64 = year as i64 + 2_147_484_000;
        if y % 4 == 0 && (y % 100 != 0 || y % 400 == 0) {
            29
        } else {
            28
        }
    } else if month == 4 || month == 6 || month == 9 || month == 11 {
        30
    } else {
        31
    }
}

/// Whether there is such a date.
pub fn date_exists(date: &Date) -> (r: bool)
    ensures
        r == is_date(*date),
{
    -MAX_YEAR <= date.year && date.year <= MAX_YEAR && 1 <= date.month && date.month <= 12 && 1
        <= date.day && (date.day as i64) <= days_in_month(date.year, date.month)
}

/// How many days of a year lie before a month.
fn days_before_month(year: i32, month: u8) -> (r: i64)
    requires
        1 <= month <= 12,
    ensures
        r == month_start(year as int, month as int),
        0 <= r <= 341,
{
    let mut days: i64 = 0;
    let mut m: u8 = 1;
    while m < month
        invariant
            1 <= m <= month <= 12,
            days == month_start(year as int, m as int),
            0 <= days <= 31 * (m - 1),
        decreases month - m,
    {
        days = days + days_in_month(year, m);
        m = m + 1;
    }
    days
}

/// The number of the first day of a year.
fn first_of_year(year: i32) -> (r: i64)
    requires
        -1_000_000 <= year <= 1_000_000,
    ensures
        r == year_start(year as int),
{
    let y: i64 = year as i64 + 1_000_400 - 1;
    proof {
        lemma_cycles(-2501, y + 1);
    }
    365 * y + y / 4 - y / 100 + y / 400 - 719_162 - 146_097 * 2501
}

/// The number of a day.
pub fn days_from_civil(date: &Date) -> (r: i64)
    requires
        is_date(*date),
    ensures
        r == day_number(*date),
        FIRST_DAY <= r <= LAST_DAY,
{
    proof {
        lemma_day_in_year(*date);
    }
    first_of_year(date.year) + days_before_month(date.year, date.month) + date.day as i64 - 1
}

/// The year of a day, from its place in a cycle of 400 years.
proof fn lemma_year_of(days: int, cycles: int, rest: int, estimate: int)
    requires
        days + 719_162 + 146_097 * 2501 == 146_097 * cycles + rest,
        0 <= rest < 146_097,
        estimate == rest / 365,
    ensures
        ({
            let k = if leaps_before(estimate + 1) + 365 * estimate > rest {
                estimate - 1
            } else {
                estimate
            };
            let year = 400 * cycles + 1 + k - 1_000_400;
            &&& 0 <= k < 400
            &&& year_start(year) <= days < year_start(year + 1)
        }),
{
    let over = leaps_before(estimate + 1) + 365 * estimate > rest;
    let k = if over {
        estimate - 1
    } else {
        estimate
    };
    let c = cycles - 2501;
    lemma_cycles(c, k + 1);
    lemma_cycles(c, k + 2);
    assert(0 <= estimate <= 400);
    assert(365 * estimate <= rest < 365 * estimate + 365);
}

/// Where a year of a cycle of 400 years starts.
proof fn lemma_cycles(cycles: int, k: int)
    ensures
        year_start(400 * cycles + k) == 146_097 * cycles + 365 * (k - 1) + leaps_before(k)
            - 719_162,
{
    assert((400 * cycles + k - 1) / 4 == 100 * cycles + (k - 1) / 4);
    assert((400 * cycles + k - 1) / 100 == 4 * cycles + (k - 1) / 100);
    assert((400 * cycles + k - 1) / 400 == cycles + (k - 1) / 400);
}

/// The date of a day.
#[verifier::rlimit(40)]
pub fn civil_from_days(days: i64) -> (r: Date)
    requires
        FIRST_DAY <= days <= LAST_DAY,
    ensures
        is_date(r),
        day_number(r) == days,
{
    // The calendar repeats every 400 years, which have 146097 days.
    let since: i64 = days + 719_162 + 146_097 * 2501;
    let cycles: i64 = since / 146_097;
    let rest: i64 = since % 146_097;
    let mut k: i64 = rest / 365;
    if 365 * k + k / 4 - k / 100 + k / 400 > rest {
        k = k - 1;
    }
    let year: i64 = 400 * cycles + 1 + k - 1_000_400;
    proof {
        let y = year as int;
        lemma_year_of(days as int, cycles as int, rest as int, rest / 365);
        if y < -MAX_YEAR {
            lemma_years_ascend(y, -MAX_YEAR as int);
        }
        if y > MAX_YEAR {
            if y > MAX_YEAR + 1 {
                lemma_years_ascend(MAX_YEAR + 1, y);
                lemma_years_follow(MAX_YEAR + 1);
            }
        }
    }
    let year: i32 = year as i32;
    let day: i64 = days - first_of_year(year);
    let mut month: u8 = 1;
    let mut before: i64 = 0;
    proof {
        lemma_months_fill_the_year(year as int);
    }
    while month < 12 && before + days_in_month(year, month) <= day
        invariant
            1 <= month <= 12,
            before == month_start(year as int, month as int),
            0 <= before <= day,
            day < month_start(year as int, 12) + month_length(year as int, 12),
            day <= 366,
        decreases 12 - month,
    {
        before = before + days_in_month(year, month);
        month = month + 1;
    }
    Date { year, month, day: (day - before + 1) as u8 }
}

/// Whether there is such a time.
pub fn time_exists(time: &Time) -> (r: bool)
    ensures
        r == is_time(*time),
{
    time.hour < 24 && time.minute < 60 && time.second < 60 && time.nanosecond < 1_000_000_000
}

/// How many nanoseconds a time lies after midnight.
pub fn time_to_ns(time: &Time) -> (r: u64)
    requires
        is_time(*time),
    ensures
        r == nanoseconds(*time),
        r < DAY_NANOSECONDS,
{
    ((time.hour as u64 * 60 + time.minute as u64) * 60 + time.second as u64) * 1_000_000_000
        + time.nanosecond as u64
}

/// The time that lies so many nanoseconds after midnight.
pub fn time_from_ns(ns: u64) -> (r: Time)
    requires
        ns < DAY_NANOSECONDS,
    ensures
        is_time(r),
        nanoseconds(r) == ns,
{
    let seconds: u64 = ns / 1_000_000_000;
    let minutes: u64 = seconds / 60;
    Time {
        hour: (minutes / 60) as u8,
        minute: (minutes % 60) as u8,
        second: (seconds % 60) as u8,
        nanosecond: (ns % 1_000_000_000) as u32,
    }
}

/// A moment of a day has one time.
pub proof fn lemma_times_are_unique(a: Time, b: Time)
    requires
        is_time(a),
        is_time(b),
        nanoseconds(a) == nanoseconds(b),
    ensures
        a == b,
{
    let (s, t) = (
        (a.hour * 60 + a.minute) * 60 + a.second,
        (b.hour * 60 + b.minute) * 60 + b.second,
    );
    assert(s == t && a.nanosecond == b.nanosecond) by {
        assert(nanoseconds(a) == s * 1_000_000_000 + a.nanosecond);
        assert(nanoseconds(b) == t * 1_000_000_000 + b.nanosecond);
    }
}

} // verus!
