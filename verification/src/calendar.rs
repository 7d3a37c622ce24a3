//! Calendar dates of the proleptic Gregorian calendar and the month
//! arithmetic that the depletion engine walks its horizon with.

use chrono::Datelike;
use chrono::Months;
use chrono::NaiveDate;
use vstd::prelude::*;

verus! {

/// The first year that a date can lie in.
pub const MIN_YEAR: i32 = -262143;

/// The last year that a date can lie in.
pub const MAX_YEAR: i32 = 262142;

/// A calendar day, held as its year, month (1 to 12) and day of the month.
#[derive(Clone, Copy, Debug, PartialEq, Eq, Hash, Structural)]
pub struct Date {
    pub year: i32,
    pub month: u32,
    pub day: u32,
}

/// Whether `year` has a 29th of February.
pub open spec fn is_leap_year(year: int) -> bool {
    year % 4 == 0 && (year % 100 != 0 || year % 400 == 0)
}

/// The number of days of month `month` of `year`.
pub open spec fn days_in_month(year: int, month: int) -> int {
    if month == 2 {
        if is_leap_year(year) {
            29
        } else {
            28
        }
    } else if month == 4 || month == 6 || month == 9 || month == 11 {
        30
    } else {
        31
    }
}

/// Whether year, month and day name a day of the calendar.
pub open spec fn valid_ymd(year: int, month: int, day: int) -> bool {
    &&& MIN_YEAR <= year <= MAX_YEAR
    &&& 1 <= month <= 12
    &&& 1 <= day <= days_in_month(year, month)
}

/// The days of `year` that lie before the first of `month`.
pub open spec fn days_before_month(year: int, month: int) -> int {
    let leap_day: int = if month > 2 && is_leap_year(year) {
        1
    } else {
        0
    };
    let common: int = if month <= 1 {
        0
    } else if month == 2 {
        31
    } else if month == 3 {
        59
    } else if month == 4 {
        90
    } else if month == 5 {
        120
    } else if month == 6 {
        151
    } else if month == 7 {
        181
    } else if month == 8 {
        212
    } else if month == 9 {
        243
    } else if month == 10 {
        273
    } else if month == 11 {
        304
    } else {
        334
    };
    common + leap_day
}

/// The days between the start of year 1 and the start of `year`.
pub open spec fn days_before_year(year: int) -> int {
    let p = year - 1;
    365 * p + p / 4 - p / 100 + p / 400
}

/// The day's number, counted so that 1 January of year 1 is day 1.
pub open spec fn day_number_of(year: int, month: int, day: int) -> int {
    days_before_year(year) + days_before_month(year, month) + day
}

/// The month `months` after the month of `date` with the day of the month
/// kept, or nothing where that month has no such day.
pub open spec fn month_shift(date: Date, months: int) -> Option<Date> {
    let total = date.year * 12 + (date.month - 1) + months;
    let year = total / 12;
    let month = total % 12 + 1;
    if valid_ymd(year, month, date.day as int) {
        Some(Date { year: year as i32, month: month as u32, day: date.day })
    } else {
        None
    }
}

/// The month `months` after the month of `date`, with the day of the month
/// lowered to that month's last day where it has fewer days.
pub open spec fn month_shift_clamped(date: Date, months: int) -> Option<Date> {
    let total = date.year * 12 + (date.month - 1) + months;
    let year = total / 12;
    let month = total % 12 + 1;
    let last = days_in_month(year, month);
    let day = if date.day > last { last } else { date.day as int };
    if valid_ymd(year, month, day) {
        Some(Date { year: year as i32, month: month as u32, day: day as u32 })
    } else {
        None
    }
}

/// Calls `NaiveDate::from_ymd_opt` and copies the fields of the date it
/// returns. Claimed of it: a date comes back exactly for a day that the
/// calendar has in the years `MIN_YEAR` to `MAX_YEAR`, with the fields given.
#[verifier::external_body]
fn chrono_from_ymd(year: i32, month: u32, day: u32) -> (r: Option<Date>)
    ensures
        r == (if valid_ymd(year as int, month as int, day as int) {
            Some(Date { year, month, day })
        } else {
            None
        }),
{
    NaiveDate::from_ymd_opt(year, month, day).map(
        |d| Date { year: d.year(), month: d.month(), day: d.day() },
    )
}

/// Calls `Datelike::num_days_in_month` on the date. Claimed of it: the
/// length of the date's month, 28 to 31.
#[verifier::external_body]
fn chrono_days_in_month(date: Date) -> (r: u8)
    requires
        date.is_valid(),
    ensures
        r as int == days_in_month(date.year as int, date.month as int),
{
    NaiveDate::from_ymd_opt(date.year, date.month, date.day).unwrap().num_days_in_month()
}

/// Calls `Datelike::num_days_from_ce` on the date. Claimed of it: the count
/// of days from 1 January of year 1, which is day 1.
#[verifier::external_body]
fn chrono_day_number(date: Date) -> (r: i32)
    requires
        date.is_valid(),
    ensures
        r as int == date.day_number(),
{
    NaiveDate::from_ymd_opt(date.year, date.month, date.day).unwrap().num_days_from_ce()
}

/// Calls `NaiveDate::checked_add_months`. Claimed of it: the date that many
/// months later with the day lowered to the month's last where needed, and
/// nothing where the year leaves the calendar.
#[verifier::external_body]
fn chrono_add_months(date: Date, months: u32) -> (r: Option<Date>)
    requires
        date.is_valid(),
    ensures
        r == month_shift_clamped(date, months as int),
{
    NaiveDate::from_ymd_opt(date.year, date.month, date.day).unwrap().checked_add_months(
        Months::new(months),
    ).map(|d| Date { year: d.year(), month: d.month(), day: d.day() })
}

impl Date {
    /// Whether the fields name a day of the calendar.
    pub open spec fn is_valid(self) -> bool {
        valid_ymd(self.year as int, self.month as int, self.day as int)
    }

    /// The day's number, counted so that 1 January of year 1 is day 1.
    pub open spec fn day_number(self) -> int {
        day_number_of(self.year as int, self.month as int, self.day as int)
    }

    /// The number of the first day of the date's month.
    pub open spec fn month_start(self) -> int {
        day_number_of(self.year as int, self.month as int, 1)
    }

    /// The number of days of the date's month.
    pub open spec fn month_len(self) -> int {
        days_in_month(self.year as int, self.month as int)
    }

    /// Whether `self` is an earlier day than `other`.
    pub open spec fn is_before(self, other: Date) -> bool {
        self.year < other.year || (self.year == other.year && (self.month < other.month || (
        self.month == other.month && self.day < other.day)))
    }

    /// The date with these fields, where the calendar has that day.
    pub fn from_ymd_opt(year: i32, month: u32, day: u32) -> (r: Option<Date>)
        ensures
            r.is_some() <==> valid_ymd(year as int, month as int, day as int),
            r.is_some() ==> r == Some(Date { year, month, day }),
    {
        chrono_from_ymd(year, month, day)
    }

    /// The number of days of the date's month.
    pub fn num_days_in_month(&self) -> (r: u8)
        requires
            self.is_valid(),
        ensures
            r as int == self.month_len(),
            28 <= r <= 31,
    {
        chrono_days_in_month(*self)
    }

    /// The day's number, counted so that 1 January of year 1 is day 1.
    pub fn num_days_from_ce(&self) -> (r: i32)
        requires
            self.is_valid(),
        ensures
            r as int == self.day_number(),
    {
        chrono_day_number(*self)
    }

    /// The date `months` months later, on the month's last day where the
    /// month is too short for the day of the month.
    pub fn checked_add_months(&self, months: u32) -> (r: Option<Date>)
        requires
            self.is_valid(),
        ensures
            r == month_shift_clamped(*self, months as int),
            r matches Some(d) ==> d.is_valid(),
    {
        chrono_add_months(*self, months)
    }

    /// Whether `self` is an earlier day than `other`.
    pub fn precedes(&self, other: &Date) -> (r: bool)
        ensures
            r == self.is_before(*other),
    {
        self.year < other.year || (self.year == other.year && (self.month < other.month || (
        self.month == other.month && self.day < other.day)))
    }
}

/// Adds `months` calendar months to `date`, keeping the day of the month.
/// Nothing comes back where the month reached has no such day, or lies
/// outside the calendar's years.
pub fn add_months(date: Date, months: i32) -> (r: Option<Date>)
    requires
        date.is_valid(),
    ensures
        r == month_shift(date, months as int),
        r matches Some(d) ==> d.is_valid() && d.day == date.day,
{
    let total: i64 = date.year as i64 * 12 + (date.month as i64 - 1) + months as i64;
    let mut year: i64 = total / 12;
    let mut index: i64 = total % 12;
    if index < 0 {
        index = index + 12;
        year = year - 1;
    }
    assert(year == (total as int) / 12 && index == (total as int) % 12) by {
        lemma_floor_division(total as int, year as int, index as int);
    }
    if year < MIN_YEAR as i64 || year > MAX_YEAR as i64 {
        return None;
    }
    Date::from_ymd_opt(year as i32, (index + 1) as u32, date.day)
}

/// The day numbers of the calendar's dates are small.
pub proof fn lemma_day_number_range(date: Date)
    requires
        date.is_valid(),
    ensures
        -96_000_000 < date.month_start() < 96_000_000,
        date.month_start() <= date.day_number() < date.month_start() + date.month_len(),
        28 <= date.month_len() <= 31,
{
}

/// The months partition the days: the month after a month begins on the
/// day after that month's last day.
pub proof fn lemma_next_month_follows(date: Date)
    requires
        date.is_valid(),
        month_shift(Date { year: date.year, month: date.month, day: 1 }, 1).is_some(),
    ensures
        month_shift(Date { year: date.year, month: date.month, day: 1 }, 1).unwrap().month_start()
            == date.month_start() + date.month_len(),
{
    let first = Date { year: date.year, month: date.month, day: 1 };
    let total = first.year * 12 + (first.month - 1) + 1;
    if date.month == 12 {
        lemma_floor_division(total, date.year + 1, 0);
    } else {
        lemma_floor_division(total, date.year as int, date.month as int);
    }
}

/// A quotient and a remainder in range are the floor division's.
proof fn lemma_floor_division(total: int, quotient: int, remainder: int)
    requires
        total == quotient * 12 + remainder,
        0 <= remainder < 12,
    ensures
        quotient == total / 12,
        remainder == total % 12,
{
    vstd::arithmetic::div_mod::lemma_fundamental_div_mod_converse(total, 12, quotient, remainder);
}

} // verus!
