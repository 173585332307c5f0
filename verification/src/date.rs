//! Calendar dates as plain year / month / day values.
//!
//! Holding periods are measured in whole days between proleptic-Gregorian
//! calendar dates, so the module proves an exact day-number conversion.
//! Only the reading of the current local date is delegated to an outside
//! clock.

use vstd::prelude::*;

verus! {

/// A proleptic-Gregorian calendar date.
#[derive(Clone, Copy, PartialEq, Eq, Structural, Debug)]
pub struct Date {
    pub year: u16,
    pub month: u8,
    pub day: u8,
}

pub open spec fn spec_is_leap_year(y: int) -> bool {
    (y % 4 == 0 && y % 100 != 0) || y % 400 == 0
}

pub open spec fn spec_days_in_month(y: int, m: int) -> int {
    if m == 2 {
        if spec_is_leap_year(y) {
            29
        } else {
            28
        }
    } else if m == 4 || m == 6 || m == 9 || m == 11 {
        30
    } else {
        31
    }
}

/// Days in all months of year `y` that precede month `m`.
pub open spec fn spec_days_before_month(y: int, m: int) -> int
    decreases m,
{
    if m <= 1 {
        0
    } else {
        spec_days_before_month(y, m - 1) + spec_days_in_month(y, m - 1)
    }
}

/// Days in all years that precede year `y`, counted from year 1.
pub open spec fn spec_days_before_year(y: int) -> int {
    365 * (y - 1) + (y - 1) / 4 - (y - 1) / 100 + (y - 1) / 400
}

/// Day index of a date: the first representable day, 0001-01-01, is day 0.
pub open spec fn spec_day_number(d: Date) -> int {
    spec_days_before_year(d.year as int) + spec_days_before_month(d.year as int, d.month as int)
        + d.day - 1
}

impl Date {
    pub open spec fn is_valid(self) -> bool {
        &&& 1 <= self.year <= 9999
        &&& 1 <= self.month <= 12
        &&& 1 <= self.day <= spec_days_in_month(self.year as int, self.month as int)
    }

    /// Builds a date after checking that it denotes a real calendar day.
    pub fn new(year: u16, month: u8, day: u8) -> (r: Option<Date>)
        ensures
            r matches Some(d) ==> d == (Date { year, month, day }) && d.is_valid(),
            r is None ==> !(Date { year, month, day }).is_valid(),
    {
        if 1 <= year && year <= 9999 && 1 <= month && month <= 12 && 1 <= day && day
            <= days_in_month(year, month) {
            Some(Date { year, month, day })
        } else {
            None
        }
    }

    /// The day index of this date; two dates one calendar day apart differ by 1.
    pub fn day_number(self) -> (r: u32)
        requires
            self.is_valid(),
        ensures
            r == spec_day_number(self),
    {
        let y: u32 = self.year as u32;
        let days_before_year: u32 = 365 * (y - 1) + (y - 1) / 4 - (y - 1) / 100 + (y - 1) / 400;
        let mut m: u8 = 1;
        let mut days_before: u32 = 0;
        while m < self.month
            invariant
                1 <= m <= self.month,
                self.is_valid(),
                days_before == spec_days_before_month(self.year as int, m as int),
                days_before <= 31 * (m - 1),
            decreases self.month - m,
        {
            days_before = days_before + days_in_month(self.year, m) as u32;
            m = m + 1;
        }
        days_before_year + days_before + self.day as u32 - 1
    }
}

pub fn is_leap_year(y: u16) -> (r: bool)
    ensures
        r == spec_is_leap_year(y as int),
{
    (y % 4 == 0 && y % 100 != 0) || y % 400 == 0
}

pub fn days_in_month(y: u16, m: u8) -> (r: u8)
    ensures
        r == spec_days_in_month(y as int, m as int),
{
    if m == 2 {
        if is_leap_year(y) {
            29
        } else {
            28
        }
    } else if m == 4 || m == 6 || m == 9 || m == 11 {
        30
    } else {
        31
    }
}

impl Date {
    /// Checks that the date denotes a real calendar day.
    pub fn check_valid(&self) -> (r: bool)
        ensures
            r == self.is_valid(),
    {
        1 <= self.year && self.year <= 9999 && 1 <= self.month && self.month <= 12 && 1
            <= self.day && self.day <= days_in_month(self.year, self.month)
    }
}

/// Whole days from `earlier` to `later`; negative when `later` precedes it.
pub fn days_between(earlier: Date, later: Date) -> (r: i32)
    requires
        earlier.is_valid(),
        later.is_valid(),
    ensures
        r == spec_day_number(later) - spec_day_number(earlier),
{
    proof {
        lemma_day_number_bounds(earlier);
        lemma_day_number_bounds(later);
    }
    later.day_number() as i32 - earlier.day_number() as i32
}

pub proof fn lemma_day_number_bounds(d: Date)
    requires
        d.is_valid(),
    ensures
        0 <= spec_day_number(d) < 3_700_000,
{
    lemma_days_before_month_bounds(d.year as int, d.month as int);
}

proof fn lemma_days_before_month_bounds(y: int, m: int)
    requires
        1 <= m <= 12,
    ensures
        0 <= spec_days_before_month(y, m) <= 31 * (m - 1),
    decreases m,
{
    if m > 1 {
        lemma_days_before_month_bounds(y, m - 1);
    }
}

/// Relies on `chrono::Local::now` and `chrono::NaiveDate`: the local calendar
/// date right now, as plain year / month / day values; chrono documents the
/// month as 1..=12 and the day as 1..=31.  On a machine whose clock is set
/// before 1970 the chrono call itself panics, and this wrapper inherits
/// that; the year range is checked by the caller instead, in `today`.
#[verifier::external_body]
fn now_local_ymd() -> (r: (i32, u8, u8))
    ensures
        1 <= r.1 <= 12,
        1 <= r.2 <= 31,
{
    let d = chrono::Local::now().date_naive();
    let y = chrono::Datelike::year(&d);
    let m = chrono::Datelike::month(&d) as u8;
    let day = chrono::Datelike::day(&d) as u8;
    (y, m, day)
}

/// The current local date, when it falls in the representable year range.
pub fn today() -> (r: Option<Date>)
    ensures
        r matches Some(d) ==> d.is_valid(),
{
    let (y, m, d) = now_local_ymd();
    if 1 <= y && y <= 9999 {
        Date::new(y as u16, m, d)
    } else {
        None
    }
}

} // verus!
