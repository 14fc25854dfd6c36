//! Dates and times as the server sends them: days since a start, and parts of a second since
//! midnight.
use vstd::arithmetic::power::pow;
use vstd::prelude::*;

use chrono::{Datelike, NaiveDate, NaiveDateTime, NaiveTime, Timelike};
use tiberius::{ColumnData, FromSql};

use crate::render;
use crate::render::{Clock, Date};

verus! {

// ---------------------------------------------------------------------------
// The calendar
// ---------------------------------------------------------------------------

/// How many days there are from the first of January of the year 1 to that of a year.
pub open spec fn year_start(year: int) -> int {
    365 * (year - 1) + (year - 1) / 4 - (year - 1) / 100 + (year - 1) / 400
}

/// How many days of a year come before a month.
pub open spec fn days_before_month(year: int, month: int) -> int
    decreases month,
{
    if month <= 1 {
        0
    } else {
        days_before_month(year, month - 1) + render::days_in_month(year, month - 1)
    }
}

/// How many days there are from the first of January of the year 1 to a day.
pub open spec fn day_number(year: int, month: int, day: int) -> int {
    year_start(year) + days_before_month(year, month) + (day - 1)
}

/// Whether there is a date with this number of days since the first of January of the year 1.
pub open spec fn valid_day(n: int) -> bool {
    day_number(-262_143, 1, 1) <= n <= day_number(262_142, 12, 31)
}

pub proof fn lemma_days()
    ensures
        day_number(-262_143, 1, 1) == -95_746_130,
        day_number(1900, 1, 1) == 693_595,
        day_number(262_142, 12, 31) == 95_745_398,
{
    reveal_with_fuel(days_before_month, 13);
}

/// Years follow one another.
pub proof fn lemma_year_step(year: int)
    ensures
        year_start(year + 1) == year_start(year) + if render::leap_year(year) {
            366int
        } else {
            365
        },
{
}

pub proof fn lemma_year_order(a: int, b: int)
    requires
        a < b,
    ensures
        year_start(a) + if render::leap_year(a) {
            366int
        } else {
            365
        } <= year_start(b),
    decreases b - a,
{
    lemma_year_step(a);
    if a + 1 < b {
        lemma_year_order(a + 1, b);
    }
}

proof fn lemma_month_order(year: int, a: int, b: int)
    requires
        1 <= a < b <= 13,
    ensures
        days_before_month(year, a) + render::days_in_month(year, a) <= days_before_month(year, b),
    decreases b - a,
{
    if a + 1 < b {
        lemma_month_order(year, a, b - 1);
    }
}

/// The days of a year come before the next year.
pub proof fn lemma_day_in_year(year: int, month: int, day: int)
    requires
        1 <= month <= 12,
        1 <= day <= render::days_in_month(year, month),
    ensures
        year_start(year) <= day_number(year, month, day) < year_start(year)
            + if render::leap_year(year) {
            366int
        } else {
            365
        },
{
    lemma_month_order(year, month, 13);
    if month > 1 {
        lemma_month_order(year, 1, month);
    }
    reveal_with_fuel(days_before_month, 14);
}

/// The number of days since the first of January of the year 1 tells dates apart.
pub proof fn law_day_number_determines(
    y1: int,
    m1: int,
    d1: int,
    y2: int,
    m2: int,
    d2: int,
)
    requires
        render::valid_date(y1, m1, d1),
        render::valid_date(y2, m2, d2),
        day_number(y1, m1, d1) == day_number(y2, m2, d2),
    ensures
        y1 == y2,
        m1 == m2,
        d1 == d2,
{
    lemma_day_in_year(y1, m1, d1);
    lemma_day_in_year(y2, m2, d2);
    if y1 < y2 {
        lemma_year_order(y1, y2);
    } else if y2 < y1 {
        lemma_year_order(y2, y1);
    }
    if m1 < m2 {
        lemma_month_order(y1, m1, m2);
    } else if m2 < m1 {
        lemma_month_order(y1, m2, m1);
    }
}

// ---------------------------------------------------------------------------
// tiberius
// ---------------------------------------------------------------------------

/// Whether a date, given by year, month and day, is the one with the number of days since the
/// first of January of the year 1.
pub open spec fn is_day(r: (i32, u32, u32), n: int) -> bool {
    &&& render::valid_date(r.0 as int, r.1 as int, r.2 as int)
    &&& day_number(r.0 as int, r.1 as int, r.2 as int) == n
}

/// Whether a time of day, given by seconds and nanoseconds, is the one so many nanoseconds
/// after a midnight.
pub open spec fn is_time(r: (u32, u32), nanos: int) -> bool {
    &&& r.0 == nanos / 1_000_000_000 % 86_400
    &&& r.1 == nanos % 1_000_000_000
}

/// Nanoseconds for a number of parts of a second, where a second has ten to the power `scale`
/// of them.
pub open spec fn nanos_of(increments: int, scale: int) -> int {
    increments * pow(10, (9 - scale) as nat)
}

/// Whether the nanoseconds can be counted.
pub open spec fn valid_time(increments: int, scale: int) -> bool {
    scale <= 9 && nanos_of(increments, scale) <= i64::MAX
}

/// `from_sql` of `chrono::NaiveDateTime`, by `tiberius::FromSql`, on `ColumnData::DateTime`: the
/// days count from 1900, the fragments are thirds of a hundredth of a second. A day that
/// `chrono` has no date for would panic; a time of more than a day wraps around.
#[verifier::external_body]
fn convert_datetime(days: i32, fragments: u32) -> (r: ((i32, u32, u32), (u32, u32)))
    requires
        valid_day(day_number(1900, 1, 1) + days),
    ensures
        is_day(r.0, day_number(1900, 1, 1) + days),
        is_time(r.1, fragments * 1_000_000_000 / 300),
{
    let held = ColumnData::DateTime(Some(tiberius::time::DateTime::new(days, fragments)));
    let dt = NaiveDateTime::from_sql(&held).unwrap().unwrap();
    ((dt.year(), dt.month(), dt.day()), (dt.num_seconds_from_midnight(), dt.nanosecond()))
}

/// `from_sql` of `chrono::NaiveDateTime`, by `tiberius::FromSql`, on
/// `ColumnData::SmallDateTime`: the days count from 1900, and the time is in minutes. A time of
/// a day or more would panic.
#[verifier::external_body]
fn convert_smalldatetime(days: u16, minutes: u16) -> (r: ((i32, u32, u32), (u32, u32)))
    requires
        minutes < 1440,
    ensures
        is_day(r.0, day_number(1900, 1, 1) + days),
        is_time(r.1, minutes * 60_000_000_000),
{
    let held = ColumnData::SmallDateTime(Some(tiberius::time::SmallDateTime::new(days, minutes)));
    let dt = NaiveDateTime::from_sql(&held).unwrap().unwrap();
    ((dt.year(), dt.month(), dt.day()), (dt.num_seconds_from_midnight(), dt.nanosecond()))
}

/// `from_sql` of `chrono::NaiveDateTime`, by `tiberius::FromSql`, on `ColumnData::DateTime2`:
/// the days count from the year 1 and have 24 bits, and the time is in parts of a second by its
/// scale. More days would panic, and more nanoseconds than an `i64` holds would overflow; a time
/// of more than a day wraps around.
#[verifier::external_body]
fn convert_datetime2(days: u32, increments: u64, scale: u8) -> (r: ((i32, u32, u32), (u32, u32)))
    requires
        days < 0x100_0000,
        valid_time(increments as int, scale as int),
    ensures
        is_day(r.0, days as int),
        is_time(r.1, nanos_of(increments as int, scale as int)),
{
    let time = tiberius::time::Time::new(increments, scale);
    let both = tiberius::time::DateTime2::new(tiberius::time::Date::new(days), time);
    let dt = NaiveDateTime::from_sql(&ColumnData::DateTime2(Some(both))).unwrap().unwrap();
    ((dt.year(), dt.month(), dt.day()), (dt.num_seconds_from_midnight(), dt.nanosecond()))
}

/// A day in nanoseconds.
pub open spec fn nanos_per_day() -> int {
    86_400_000_000_000
}

/// The local time of a `datetimeoffset`, in nanoseconds since the year 1: days and the time of
/// day are those of UTC, and the offset is in minutes.
pub open spec fn local_nanos(days: int, increments: int, scale: int, offset: int) -> int {
    days * nanos_per_day() + nanos_of(increments, scale) % nanos_per_day() + offset
        * 60_000_000_000
}

/// `from_sql` of `chrono::DateTime<FixedOffset>`, by `tiberius::FromSql`, on
/// `ColumnData::DateTimeOffset`: the date and the time are those of UTC, as in
/// [`convert_datetime2`], and the offset is in minutes; the date and the time that come out are
/// the local ones. An offset of a day or more would panic.
#[verifier::external_body]
fn convert_datetimeoffset(days: u32, increments: u64, scale: u8, offset: i16) -> (r: (
    (i32, u32, u32),
    (u32, u32),
))
    requires
        days < 0x100_0000,
        valid_time(increments as int, scale as int),
        -1440 < offset < 1440,
    ensures
        is_day(
            r.0,
            local_nanos(days as int, increments as int, scale as int, offset as int)
                / nanos_per_day(),
        ),
        is_time(
            r.1,
            local_nanos(days as int, increments as int, scale as int, offset as int)
                % nanos_per_day(),
        ),
{
    let time = tiberius::time::Time::new(increments, scale);
    let utc = tiberius::time::DateTime2::new(tiberius::time::Date::new(days), time);
    let held = ColumnData::DateTimeOffset(Some(tiberius::time::DateTimeOffset::new(utc, offset)));
    let dt = chrono::DateTime::<chrono::FixedOffset>::from_sql(&held).unwrap().unwrap();
    ((dt.year(), dt.month(), dt.day()), (dt.num_seconds_from_midnight(), dt.nanosecond()))
}

/// `from_sql` of `chrono::NaiveDate`, by `tiberius::FromSql`, on `ColumnData::Date`: the days
/// count from the year 1 and have 24 bits. More would panic.
#[verifier::external_body]
fn convert_date(days: u32) -> (r: (i32, u32, u32))
    requires
        days < 0x100_0000,
    ensures
        is_day(r, days as int),
{
    let held = ColumnData::Date(Some(tiberius::time::Date::new(days)));
    let d = NaiveDate::from_sql(&held).unwrap().unwrap();
    (d.year(), d.month(), d.day())
}

/// `from_sql` of `chrono::NaiveTime`, by `tiberius::FromSql`, on `ColumnData::Time`: parts of a
/// second since midnight by the scale. More nanoseconds than an `i64` holds would overflow; a
/// time of more than a day wraps around.
#[verifier::external_body]
fn convert_time(increments: u64, scale: u8) -> (r: (u32, u32))
    requires
        valid_time(increments as int, scale as int),
    ensures
        is_time(r, nanos_of(increments as int, scale as int)),
{
    let held = ColumnData::Time(Some(tiberius::time::Time::new(increments, scale)));
    let t = NaiveTime::from_sql(&held).unwrap().unwrap();
    (t.num_seconds_from_midnight(), t.nanosecond())
}

// ---------------------------------------------------------------------------
// Reading
// ---------------------------------------------------------------------------

impl Date {
    /// The number of days since the first of January of the year 1.
    pub open spec fn number(self) -> int {
        day_number(self.spec_year() as int, self.spec_month() as int, self.spec_day() as int)
    }
}

impl Clock {
    /// Whether this is the time of day so many nanoseconds after a midnight.
    pub open spec fn is_after(self, nanos: int) -> bool {
        is_time((self.spec_secs(), self.spec_nanos()), nanos)
    }
}

fn both(parts: ((i32, u32, u32), (u32, u32)), Ghost(n): Ghost<int>, Ghost(nanos): Ghost<int>) -> (r:
    Option<(Date, Clock)>)
    requires
        is_day(parts.0, n),
        is_time(parts.1, nanos),
    ensures
        r matches Some(dt) && dt.0.number() == n && dt.1.is_after(nanos),
{
    let (d, t) = parts;
    match (Date::new(d.0, d.1, d.2), Clock::new(t.0, t.1)) {
        (Some(date), Some(clock)) => Some((date, clock)),
        _ => None,
    }
}

/// Whether the nanoseconds can be counted.
fn time_fits(increments: u64, scale: u8) -> (r: bool)
    ensures
        r == valid_time(increments as int, scale as int),
{
    if scale > 9 {
        return false;
    }
    let n: u8 = 9 - scale;
    let mut total: u64 = increments;
    proof {
        vstd::arithmetic::power::lemma_pow0(10);
        vstd::arithmetic::power::lemma_pow_positive(10, n as nat);
        assert(increments * pow(10, n as nat) >= increments) by (nonlinear_arith)
            requires
                pow(10, n as nat) >= 1,
        ;
    }
    if total > 0x7fff_ffff_ffff_ffff {
        return false;
    }
    for i in 0..n
        invariant
            n == 9 - scale,
            scale <= 9,
            total == increments * pow(10, i as nat),
            total <= i64::MAX,
    {
        proof {
            vstd::arithmetic::power::lemma_pow1(10);
            vstd::arithmetic::power::lemma_pow_adds(10, i as nat, 1);
            vstd::arithmetic::power::lemma_pow_increases(10, (i + 1) as nat, n as nat);
            let (inc, p, q, w) = (
                increments as int,
                pow(10, i as nat),
                pow(10, (i + 1) as nat),
                pow(10, n as nat),
            );
            assert(inc * q == 10 * (inc * p)) by (nonlinear_arith)
                requires
                    q == p * 10,
            ;
            assert(inc * q <= inc * w) by (nonlinear_arith)
                requires
                    inc >= 0,
                    q <= w,
            ;
        }
        if total > 922_337_203_685_477_580 {
            return false;
        }
        total = total * 10;
    }
    true
}

/// The date and time that a `datetime` holds: days since 1900 and thirds of a hundredth of a
/// second since midnight, if there is such a date.
pub fn read_datetime(days: i32, fragments: u32) -> (r: Option<(Date, Clock)>)
    ensures
        match r {
            Some(dt) => valid_day(day_number(1900, 1, 1) + days) && dt.0.number() == day_number(
                1900,
                1,
                1,
            ) + days && dt.1.is_after(fragments * 1_000_000_000 / 300),
            None => !valid_day(day_number(1900, 1, 1) + days),
        },
{
    proof {
        lemma_days();
    }
    let n: i64 = 693_595 + days as i64;
    if n < -95_746_130 || n > 95_745_398 {
        return None;
    }
    both(
        convert_datetime(days, fragments),
        Ghost(n as int),
        Ghost(fragments * 1_000_000_000 / 300),
    )
}

/// The date and time that a `smalldatetime` holds: days since 1900 and minutes since midnight,
/// if there is such a time.
pub fn read_smalldatetime(days: u16, minutes: u16) -> (r: Option<(Date, Clock)>)
    ensures
        match r {
            Some(dt) => minutes < 1440 && dt.0.number() == day_number(1900, 1, 1) + days
                && dt.1.is_after(minutes * 60_000_000_000),
            None => minutes >= 1440,
        },
{
    if minutes >= 1440 {
        return None;
    }
    both(
        convert_smalldatetime(days, minutes),
        Ghost(day_number(1900, 1, 1) + days),
        Ghost(minutes * 60_000_000_000),
    )
}

/// The date and time that a `datetime2` holds: days since the year 1 and parts of a second
/// since midnight, if they can be counted.
pub fn read_datetime2(days: u32, increments: u64, scale: u8) -> (r: Option<(Date, Clock)>)
    ensures
        match r {
            Some(dt) => days < 0x100_0000 && valid_time(increments as int, scale as int)
                && dt.0.number() == days && dt.1.is_after(
                nanos_of(increments as int, scale as int),
            ),
            None => days >= 0x100_0000 || !valid_time(increments as int, scale as int),
        },
{
    if days >= 0x100_0000 || !time_fits(increments, scale) {
        return None;
    }
    both(
        convert_datetime2(days, increments, scale),
        Ghost(days as int),
        Ghost(nanos_of(increments as int, scale as int)),
    )
}

/// The local date and time that a `datetimeoffset` holds, with its offset from UTC in minutes:
/// days since the year 1 and parts of a second since midnight, both in UTC, if they can be
/// counted and the offset is less than a day.
pub fn read_datetimeoffset(days: u32, increments: u64, scale: u8, offset: i16) -> (r: Option<
    (Date, Clock, i16),
>)
    ensures
        match r {
            Some(dt) => {
                &&& days < 0x100_0000
                &&& valid_time(increments as int, scale as int)
                &&& -1440 < offset < 1440
                &&& dt.0.number() == local_nanos(
                    days as int,
                    increments as int,
                    scale as int,
                    offset as int,
                ) / nanos_per_day()
                &&& dt.1.is_after(
                    local_nanos(days as int, increments as int, scale as int, offset as int)
                        % nanos_per_day(),
                )
                &&& dt.2 == offset
            },
            None => days >= 0x100_0000 || !valid_time(increments as int, scale as int) || offset
                <= -1440 || offset >= 1440,
        },
{
    if days >= 0x100_0000 || !time_fits(increments, scale) || offset <= -1440 || offset >= 1440 {
        return None;
    }
    let ghost local = local_nanos(days as int, increments as int, scale as int, offset as int);
    let parts = both(
        convert_datetimeoffset(days, increments, scale, offset),
        Ghost(local / nanos_per_day()),
        Ghost(local % nanos_per_day()),
    );
    match parts {
        Some((date, clock)) => Some((date, clock, offset)),
        None => None,
    }
}

/// The date that a `date` holds: days since the year 1, if they have 24 bits.
pub fn read_date(days: u32) -> (r: Option<Date>)
    ensures
        match r {
            Some(d) => days < 0x100_0000 && d.number() == days,
            None => days >= 0x100_0000,
        },
{
    if days >= 0x100_0000 {
        return None;
    }
    let d = convert_date(days);
    Date::new(d.0, d.1, d.2)
}

/// The time that a `time` holds: parts of a second since midnight, if they can be counted.
pub fn read_time(increments: u64, scale: u8) -> (r: Option<Clock>)
    ensures
        match r {
            Some(t) => valid_time(increments as int, scale as int) && t.is_after(
                nanos_of(increments as int, scale as int),
            ),
            None => !valid_time(increments as int, scale as int),
        },
{
    if !time_fits(increments, scale) {
        return None;
    }
    let t = convert_time(increments, scale);
    Clock::new(t.0, t.1)
}

} // verus!
