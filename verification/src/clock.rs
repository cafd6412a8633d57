//! Calendar arithmetic on plain values, and the calls into `chrono` that
//! read the clock, read dates and write them out.

use chrono::Datelike;
use chrono::TimeZone;
use chrono::Timelike;
use vstd::prelude::*;

use crate::text::decimal_text;

verus! {

/// A day of the proleptic Gregorian calendar.
#[derive(Clone, Copy, Debug, PartialEq, Eq)]
pub struct CalendarDay {
    pub year: i32,
    pub month: u32,
    pub day: u32,
}

/// The local wall-clock reading of an instant.
#[derive(Clone, Copy, Debug, PartialEq, Eq)]
pub struct LocalTime {
    pub date: CalendarDay,
    pub hour: u32,
    pub minute: u32,
    /// Days since the last Monday: 0 for Monday up to 6 for Sunday.
    pub weekday: u32,
}

/// The smallest year that `chrono` can represent.
pub open spec fn min_year() -> int {
    -262143
}

/// The largest year that `chrono` can represent.
pub open spec fn max_year() -> int {
    262142
}

/// Whether `y` is a leap year of the Gregorian calendar.
pub open spec fn is_leap_year(y: int) -> bool {
    y % 4 == 0 && (y % 100 != 0 || y % 400 == 0)
}

/// The number of days of month `m` (1 to 12) in year `y`.
pub open spec fn days_in_month(y: int, m: int) -> int {
    if m == 2 {
        if is_leap_year(y) {
            29
        } else {
            28
        }
    } else if m == 4 || m == 6 || m == 9 || m == 11 {
        30
    } else {
        31
    }
}

/// The first second that `chrono` can represent, counted from 1970-01-01.
pub open spec fn first_second() -> int {
    civil_seconds(min_year(), 1, 1, 0, 0)
}

/// The last second that `chrono` can represent, counted from 1970-01-01.
pub open spec fn last_second() -> int {
    civil_seconds(max_year(), 12, 31, 23, 59) + 59
}

/// Whether month and day name a day of year `y`, whatever the year.
pub open spec fn calendar_date(y: int, m: int, d: int) -> bool {
    1 <= m <= 12 && 1 <= d <= days_in_month(y, m)
}

/// Whether year, month and day name a day that `chrono` can represent.
pub open spec fn valid_date(y: int, m: int, d: int) -> bool {
    &&& min_year() <= y <= max_year()
    &&& 1 <= m <= 12
    &&& 1 <= d <= days_in_month(y, m)
}

/// Whether a `CalendarDay` names a day that `chrono` can represent.
pub open spec fn valid_day(d: CalendarDay) -> bool {
    valid_date(d.year as int, d.month as int, d.day as int)
}

/// The number of days from 1970-01-01 to the given day (negative before it).
pub open spec fn days_from_civil(y: int, m: int, d: int) -> int {
    let yy = if m <= 2 { y - 1 } else { y };
    let era = yy / 400;
    let yoe = yy - era * 400;
    let mp = if m > 2 { m - 3 } else { m + 9 };
    let doy = (153 * mp + 2) / 5 + d - 1;
    let doe = yoe * 365 + yoe / 4 - yoe / 100 + doy;
    era * 146097 + doe - 719468
}

/// The seconds from 1970-01-01 00:00 to the given day and time, with no
/// time zone applied (the time is read as UTC).
pub open spec fn civil_seconds(y: int, m: int, d: int, h: int, mi: int) -> int {
    days_from_civil(y, m, d) * 86400 + h * 3600 + mi * 60
}

/// Whether `a` is a later day than `b`: days are ordered by year, then
/// month, then day.
pub open spec fn day_after(a: CalendarDay, b: CalendarDay) -> bool {
    ||| a.year > b.year
    ||| a.year == b.year && a.month > b.month
    ||| a.year == b.year && a.month == b.month && a.day > b.day
}

/// Whether `a` is a later day than `b`.
pub fn is_day_after(a: &CalendarDay, b: &CalendarDay) -> (r: bool)
    ensures
        r == day_after(*a, *b),
{
    a.year > b.year || (a.year == b.year && a.month > b.month) || (a.year == b.year && a.month
        == b.month && a.day > b.day)
}

/// `decimal_text(n)` padded on the left with zeros to at least `w` characters.
pub open spec fn zero_padded(n: nat, w: nat) -> Seq<char> {
    let t = decimal_text(n);
    if t.len() < w {
        Seq::new((w - t.len()) as nat, |i: int| '0') + t
    } else {
        t
    }
}

/// How `%Y` writes a year: four digits for years 0 to 9999, otherwise a
/// sign and at least four digits.
pub open spec fn year_text(y: int) -> Seq<char> {
    if 0 <= y <= 9999 {
        zero_padded(y as nat, 4)
    } else if y < 0 {
        seq!['-'] + zero_padded((-y) as nat, 4)
    } else {
        seq!['+'] + zero_padded(y as nat, 4)
    }
}

/// How `%d.%m.%Y` writes a day, such as `05.03.2025`.
pub open spec fn day_month_year_text(d: CalendarDay) -> Seq<char> {
    zero_padded(d.day as nat, 2) + seq!['.'] + zero_padded(d.month as nat, 2) + seq!['.']
        + year_text(d.year as int)
}

/// Reads a date and time written as `{:04}-{:02}-{:02}T{:02}:{:02}:00` with
/// `chrono::NaiveDateTime::parse_from_str` and the format
/// `%Y-%m-%dT%H:%M:%S`, and gives the seconds of the result since
/// 1970-01-01 00:00 (`and_utc().timestamp()`). Claimed of chrono: the text
/// parses exactly when the year has at most four digits unsigned (so is at
/// most 9999; negative years carry a sign and any number of digits), the
/// day exists in chrono's calendar and the time is a valid hour and minute;
/// and the parsed value is the one those fields name.
#[verifier::external_body]
pub(crate) fn naive_seconds(y: i32, m: i32, d: i32, h: i32, mi: i32) -> (r: Option<i64>)
    ensures
        r is Some <==> (y <= 9999 && valid_date(y as int, m as int, d as int) && 0 <= h <= 23 && 0
            <= mi <= 59),
        r matches Some(t) ==> t == civil_seconds(y as int, m as int, d as int, h as int, mi as int),
{
    let text = format!("{:04}-{:02}-{:02}T{:02}:{:02}:00", y, m, d, h, mi);
    match chrono::NaiveDateTime::parse_from_str(&text, "%Y-%m-%dT%H:%M:%S") {
        Ok(t) => Some(t.and_utc().timestamp()),
        Err(_) => None,
    }
}

/// Reads the clock with `chrono::Local::now()` and gives its
/// `timestamp()` (seconds since 1970-01-01 UTC) and the local offset
/// `offset().local_minus_utc()`. Claimed of chrono: the offset lies strictly
/// between -86400 and 86400 seconds (the bound of `FixedOffset`), and the
/// timestamp lies within chrono's range of dates. What the clock reads is
/// not stated.
#[verifier::external_body]
fn clock_now() -> (r: (i64, i32))
    ensures
        -86400 < r.1 < 86400,
        first_second() <= r.0 <= last_second(),
{
    let now = chrono::Local::now();
    (now.timestamp(), now.offset().local_minus_utc())
}

/// The local wall-clock reading, in seconds since 1970-01-01 read as if it
/// were UTC, of the instant `ts` seconds after 1970-01-01 UTC in a zone
/// `offset` seconds ahead of UTC.
pub fn wall_clock(ts: i64, offset: i32) -> (r: i64)
    requires
        i64::MIN <= ts + offset <= i64::MAX,
    ensures
        r == ts + offset,
{
    ts + offset as i64
}

/// The current time: seconds since 1970-01-01 UTC, and the local wall-clock
/// reading of it (`wall_clock` with the local offset that chrono reports).
pub fn now_seconds() -> (r: (i64, i64))
    ensures
        first_second() <= r.0 <= last_second(),
        -86400 < r.1 - r.0 < 86400,
{
    let (ts, offset) = clock_now();
    (ts, wall_clock(ts, offset))
}

/// The number of days from 1970-01-01 to a day.
pub open spec fn day_number(d: CalendarDay) -> int {
    days_from_civil(d.year as int, d.month as int, d.day as int)
}

/// The weekday of a day, counted from Monday (0) to Sunday (6):
/// 1970-01-01 was a Thursday.
pub open spec fn weekday_of(d: CalendarDay) -> int {
    (day_number(d) + 3) % 7
}

/// Whether day `d` holds the instant `ts` in a zone `offset` seconds ahead
/// of UTC.
pub open spec fn day_holds(d: CalendarDay, ts: int, offset: int) -> bool {
    &&& -86400 < offset < 86400
    &&& day_number(d) * 86400 <= ts + offset < day_number(d) * 86400 + 86400
}

/// Whether `t` is the wall-clock reading of the instant `ts` in a zone
/// `offset` seconds ahead of UTC: its day and time fall on the minute of
/// `ts + offset`, and its weekday is the weekday of its day.
pub open spec fn reads_at(t: LocalTime, ts: int, offset: int) -> bool {
    let at = civil_seconds(
        t.date.year as int,
        t.date.month as int,
        t.date.day as int,
        t.hour as int,
        t.minute as int,
    );
    &&& -86400 < offset < 86400
    &&& t.hour < 24
    &&& t.minute < 60
    &&& at <= ts + offset < at + 60
    &&& t.weekday == weekday_of(t.date)
}

/// The local wall-clock reading of the instant `ts` seconds after
/// 1970-01-01 UTC, with `chrono::Local.timestamp_opt(ts, 0)`. Claimed of
/// chrono: there is a reading exactly when chrono represents the instant
/// (`DateTime::from_timestamp` checks the range of its day); a reading names
/// a day of the calendar, whose year may lie one beyond chrono's range where
/// the local offset carries the instant over its first or last day (chrono
/// then gives the day before its first or after its last), and lies within
/// the range when the instant is a day away from its ends; an hour from 0
/// to 23, a minute from 0 to 59 and a weekday from 0 to 6; the reading is
/// `ts` moved by a `FixedOffset` (less than a day either way) and cut to
/// the minute, and its weekday is that of its day. Which offset applies
/// depends on the machine's time zone and is not stated (where chrono
/// cannot read the time zone data it falls back to UTC).
#[verifier::external_body]
pub(crate) fn local_time_at(ts: i64) -> (r: Option<LocalTime>)
    ensures
        r is Some <==> first_second() <= ts <= last_second(),
        r matches Some(t) ==> {
            &&& calendar_date(t.date.year as int, t.date.month as int, t.date.day as int)
            &&& min_year() - 1 <= t.date.year <= max_year() + 1
            &&& t.hour < 24
            &&& t.minute < 60
            &&& t.weekday < 7
        },
        r matches Some(t) ==> (first_second() + 86400 <= ts <= last_second() - 86400 ==> valid_day(
            t.date,
        )),
        r matches Some(t) ==> exists|offset: int| #[trigger] reads_at(t, ts as int, offset),
{
    match chrono::Local.timestamp_opt(ts, 0).single() {
        Some(t) => Some(
            LocalTime {
                date: CalendarDay { year: t.year(), month: t.month(), day: t.day() },
                hour: t.hour(),
                minute: t.minute(),
                weekday: t.weekday().num_days_from_monday(),
            },
        ),
        None => None,
    }
}

/// Today's date in UTC, from `chrono::Utc::now().date_naive()`. Claimed of
/// chrono: the day is one that chrono can represent. Which day it is is not
/// stated.
#[verifier::external_body]
pub(crate) fn utc_today() -> (r: CalendarDay)
    ensures
        valid_day(r),
{
    let d = chrono::Utc::now().date_naive();
    CalendarDay { year: d.year(), month: d.month(), day: d.day() }
}

/// Writes a day with `chrono::NaiveDate::format("%d.%m.%Y")`. Claimed of
/// chrono: day and month come as two digits, the year as `%Y` writes it
/// (see `year_text`).
#[verifier::external_body]
fn format_day(y: i32, m: u32, d: u32) -> (r: String)
    requires
        valid_date(y as int, m as int, d as int),
    ensures
        r@ == day_month_year_text(CalendarDay { year: y, month: m, day: d }),
{
    chrono::NaiveDate::from_ymd_opt(y, m, d).unwrap().format("%d.%m.%Y").to_string()
}

/// Writes a day as `%d.%m.%Y`, such as `05.03.2025`.
pub fn day_month_year(day: &CalendarDay) -> (r: String)
    requires
        valid_day(*day),
    ensures
        r@ == day_month_year_text(*day),
{
    format_day(day.year, day.month, day.day)
}

} // verus!
