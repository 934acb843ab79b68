//! Calendar dates, held as year, month and day.
use vstd::prelude::*;

use chrono::Datelike;
use chrono::NaiveDate;

use crate::text::decimal;

verus! {

/// The earliest year that a date may have.
pub const MIN_YEAR: i32 = -262143;

/// The latest year that a date may have.
pub const MAX_YEAR: i32 = 262142;

/// A day of the proleptic Gregorian calendar.
#[derive(Clone, Copy, Debug, PartialEq, Eq, Structural)]
pub struct Date {
    pub year: i32,
    pub month: u32,
    pub day: u32,
}

/// Whether `year` has a 29th of February.
pub open spec fn is_leap_year(year: int) -> bool {
    (year % 4 == 0 && year % 100 != 0) || year % 400 == 0
}

/// The number of days of `month` in `year`.
pub open spec fn days_in_month(year: int, month: int) -> int {
    if month == 2 {
        if is_leap_year(year) {
            29
        } else {
            28
        }
    } else if month == 4 || month == 6 || month == 9 || month == 11 {
        30
    } else {
        31
    }
}

/// Whether `year`, `month` and `day` name a day of the calendar in the range
/// of years that dates cover.
pub open spec fn valid_ymd(year: int, month: int, day: int) -> bool {
    &&& MIN_YEAR <= year <= MAX_YEAR
    &&& 1 <= month <= 12
    &&& 1 <= day <= days_in_month(year, month)
}

/// `n` in decimal, with zeros in front up to `width` digits.
pub open spec fn zero_padded(n: nat, width: nat) -> Seq<char> {
    let digits = decimal(n);
    if digits.len() < width {
        Seq::new((width - digits.len()) as nat, |i: int| '0') + digits
    } else {
        digits
    }
}

/// The year as an ISO 8601 date writes it: four digits for the years 0 to
/// 9999, otherwise a sign and at least four digits.
pub open spec fn year_text(year: int) -> Seq<char> {
    if 0 <= year <= 9999 {
        zero_padded(year as nat, 4)
    } else if year > 9999 {
        seq!['+'] + zero_padded(year as nat, 4)
    } else {
        seq!['-'] + zero_padded((-year) as nat, 4)
    }
}

impl Date {
    /// Whether this is a day of the calendar in the range of years covered.
    pub open spec fn valid(self) -> bool {
        valid_ymd(self.year as int, self.month as int, self.day as int)
    }

    /// A number that orders valid dates chronologically.
    pub open spec fn ordinal_key(self) -> int {
        self.year * 10000 + self.month * 100 + self.day
    }

    /// Whether this date comes strictly before `other`.
    pub open spec fn before(self, other: Date) -> bool {
        ||| self.year < other.year
        ||| self.year == other.year && self.month < other.month
        ||| self.year == other.year && self.month == other.month && self.day < other.day
    }

    /// The date as `YYYY-MM-DD`.
    pub open spec fn iso_text(self) -> Seq<char> {
        year_text(self.year as int) + seq!['-'] + zero_padded(self.month as nat, 2) + seq!['-']
            + zero_padded(self.day as nat, 2)
    }

    /// The date with the given year, month and day, if it exists.
    pub fn new(year: i32, month: u32, day: u32) -> (r: Option<Date>)
        ensures
            r is Some <==> valid_ymd(year as int, month as int, day as int),
            r is Some ==> r == Some(Date { year, month, day }),
    {
        let d = Date { year, month, day };
        if d.is_valid() {
            Some(d)
        } else {
            None
        }
    }

    /// Whether this is a day of the calendar in the range of years covered.
    pub fn is_valid(&self) -> (r: bool)
        ensures
            r == self.valid(),
    {
        if self.year < MIN_YEAR || self.year > MAX_YEAR || self.month < 1 || self.month > 12
            || self.day < 1 {
            return false;
        }
        // Shifting by a multiple of 400 keeps the leap-year rule and makes the
        // year positive.
        let shifted: u32 = (self.year as i64 + 400 * 700) as u32;
        let leap = (shifted % 4 == 0 && shifted % 100 != 0) || shifted % 400 == 0;
        assert(leap == is_leap_year(self.year as int)) by {
            let y = self.year as int;
            assert(shifted as int == y + 400 * 700);
            assert(shifted as int % 4 == y % 4) by {
                vstd::arithmetic::div_mod::lemma_mod_multiples_vanish(70000, y, 4);
            }
            assert(shifted as int % 100 == y % 100) by {
                vstd::arithmetic::div_mod::lemma_mod_multiples_vanish(2800, y, 100);
            }
            assert(shifted as int % 400 == y % 400) by {
                vstd::arithmetic::div_mod::lemma_mod_multiples_vanish(700, y, 400);
            }
        }
        let days: u32 = if self.month == 2 {
            if leap {
                29
            } else {
                28
            }
        } else if self.month == 4 || self.month == 6 || self.month == 9 || self.month == 11 {
            30
        } else {
            31
        };
        self.day <= days
    }

    /// Whether this date comes strictly before `other`.
    pub fn is_before(&self, other: &Date) -> (r: bool)
        ensures
            r == self.before(*other),
    {
        self.year < other.year || (self.year == other.year && self.month < other.month) || (
        self.year == other.year && self.month == other.month && self.day < other.day)
    }

    /// A number that orders valid dates chronologically.
    pub fn ordinal(&self) -> (r: i64)
        requires
            self.valid(),
        ensures
            r == self.ordinal_key(),
    {
        self.year as i64 * 10000 + self.month as i64 * 100 + self.day as i64
    }
}

/// The date that chrono reads from `s` with the pattern `%Y-%m-%d`.
pub uninterp spec fn parsed_date(s: Seq<char>) -> Option<Date>;

/// Relies on chrono's `NaiveDate::parse_from_str` with the pattern `%Y-%m-%d`:
/// the outcome depends on the text alone, and a `NaiveDate` always holds a
/// day of the calendar between its first and last supported year.
#[verifier::external_body]
pub(crate) fn parse_date(s: &str) -> (r: Option<Date>)
    ensures
        r == parsed_date(s@),
        r matches Some(d) ==> d.valid(),
{
    NaiveDate::parse_from_str(s, "%Y-%m-%d").ok().map(
        |n| Date { year: n.year(), month: n.month(), day: n.day() },
    )
}

/// Relies on chrono's `NaiveDate::from_ymd_opt`, which accepts every valid
/// date, and on its `Display`, which writes the year with four digits (with a
/// sign and at least four digits outside 0 to 9999), then the month and the
/// day with two digits each, separated by `-`. `parse_from_str` with
/// `%Y-%m-%d` reads that text back: an unsigned year of up to four digits or
/// a signed year of any length, then the month and the day.
#[verifier::external_body]
pub(crate) fn date_text(d: &Date) -> (r: String)
    requires
        d.valid(),
    ensures
        r@ == d.iso_text(),
        parsed_date(r@) == Some(*d),
{
    NaiveDate::from_ymd_opt(d.year, d.month, d.day).unwrap().to_string()
}

} // verus!
