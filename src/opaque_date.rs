//! Calendar keys packed into `u32`.
//!
//! A year is kept as is (`2015`), a year and month as `yyyymm` (`201502`) and a
//! full date as `yyyymmdd` (`20150217`). A flat integer key lets an ordered table
//! answer "all months of a year" and "all days of a month" by a range scan.
//! The ranges over-approximate the calendar: presence in a table, not the range,
//! decides whether a date exists.

use vstd::prelude::*;

verus! {

pub type Year = u32;

/// Year and month encoded as `yyyymm`.
pub type YearMonth = u32;

/// Year, month and day encoded as `yyyymmdd`.
pub type YearMonthDay = u32;

/// The month key that a day key belongs to.
pub open spec fn ym_of(ymd: int) -> int {
    ymd / 100
}

/// The year key that a month key belongs to.
pub open spec fn y_of(ym: int) -> int {
    ym / 100
}

/// First day key of a year's day interval.
pub open spec fn year_first_day(y: int) -> int {
    y * 10000 + 101
}

/// Last day key of a year's day interval.
pub open spec fn year_last_day(y: int) -> int {
    y * 10000 + 1231
}

/// First day key of a month.
pub open spec fn month_first_day(ym: int) -> int {
    ym * 100 + 1
}

/// Last day key of a month (day 31, whatever the month).
pub open spec fn month_last_day(ym: int) -> int {
    ym * 100 + 31
}

/// First month key of a year.
pub open spec fn year_first_month(y: int) -> int {
    y * 100 + 1
}

/// Last month key of a year.
pub open spec fn year_last_month(y: int) -> int {
    y * 100 + 12
}

/// For a year, the bounds of the interval of all its day keys:
/// 2015 gives `(20150101, 20151231)`.
pub fn ymd_interval_for_y(year: Year) -> (r: (u32, u32))
    requires
        year_last_day(year as int) <= u32::MAX,
    ensures
        r.0 == year_first_day(year as int),
        r.1 == year_last_day(year as int),
{
    (year * 10000 + 101, year * 10000 + 1231)
}

/// For a year and month, the bounds of the interval of its day keys:
/// 201507 gives `(20150701, 20150731)`.
pub fn ymd_interval_for_ym(year_month: YearMonth) -> (r: (u32, u32))
    requires
        month_last_day(year_month as int) <= u32::MAX,
    ensures
        r.0 == month_first_day(year_month as int),
        r.1 == month_last_day(year_month as int),
{
    (year_month * 100 + 1, year_month * 100 + 31)
}

/// The inclusive range of the month keys of a year.
pub fn ym_range_for_y(year: Year) -> (r: std::ops::RangeInclusive<u32>)
    requires
        year_last_month(year as int) <= u32::MAX,
    ensures
        r@.start == year_first_month(year as int),
        r@.end == year_last_month(year as int),
        !r@.exhausted,
{
    std::ops::RangeInclusive::new(year * 100 + 1, year * 100 + 12)
}

/// The inclusive range of the day keys of a month.
pub fn ymd_range_for_ym(year_month: YearMonth) -> (r: std::ops::RangeInclusive<u32>)
    requires
        month_last_day(year_month as int) <= u32::MAX,
    ensures
        r@.start == month_first_day(year_month as int),
        r@.end == month_last_day(year_month as int),
        !r@.exhausted,
{
    std::ops::RangeInclusive::new(year_month * 100 + 1, year_month * 100 + 31)
}

/// The month key of a day key.
pub fn ymd_to_ym(year_month_day: YearMonthDay) -> (r: YearMonth)
    ensures
        r == ym_of(year_month_day as int),
{
    year_month_day / 100
}

/// The year key of a month key.
pub fn ym_to_y(year_month: YearMonth) -> (r: Year)
    ensures
        r == y_of(year_month as int),
{
    year_month / 100
}

/// A day lies in the day range of its own month exactly when its day part is
/// 1 to 31, and never in the range of another month.
pub proof fn lemma_day_in_month_range(ymd: int, ym: int)
    requires
        ymd >= 0,
        ym >= 0,
    ensures
        (month_first_day(ym) <= ymd <= month_last_day(ym)) ==> ym_of(ymd) == ym,
{
}

/// A month lies in the month range of its own year only.
pub proof fn lemma_month_in_year_range(ym: int, y: int)
    requires
        ym >= 0,
        y >= 0,
    ensures
        (year_first_month(y) <= ym <= year_last_month(y)) ==> y_of(ym) == y,
{
}

} // verus!
