//! The broken-down calendar record, and the Gregorian arithmetic by which its
//! fields are held against one another.
use vstd::arithmetic::div_mod::{
    lemma_add_mod_noop, lemma_fundamental_div_mod, lemma_fundamental_div_mod_converse,
    lemma_hoist_over_denominator, lemma_mod_bound, lemma_mod_mod, lemma_mod_multiples_vanish,
};
use vstd::prelude::*;

verus! {

/// The year that a record's `year` field counts from.
pub const YEAR_BASE: i64 = 1900;

/// A whole number of 400-year Gregorian cycles, large enough to lift every
/// year that a record can name above zero.
const CYCLE_SHIFT: i64 = 2_147_484_000;

/// A broken-down calendar date and time of day, as the C runtime's
/// conversion routines fill it in.
#[derive(Clone, Copy, Debug, PartialEq, Eq, Structural)]
pub struct CalendarRecord {
    /// Seconds after the minute; 60 stands for a leap second.
    pub sec: i32,
    /// Minutes after the hour.
    pub min: i32,
    /// Hours since midnight.
    pub hour: i32,
    /// Day of the month, from 1.
    pub mday: i32,
    /// Months since January, from 0.
    pub mon: i32,
    /// Years since [`YEAR_BASE`].
    pub year: i32,
    /// Days since Sunday.
    pub wday: i32,
    /// Days since January 1, from 0.
    pub yday: i32,
    /// Positive while daylight saving time is in effect, zero while it is
    /// not, negative where that is not known.
    pub isdst: i32,
    /// Seconds east of UTC.
    pub gmtoff: i64,
}

/// Whether `year` of the proleptic Gregorian calendar has a February 29.
pub open spec fn is_leap_year(year: int) -> bool {
    year % 4 == 0 && (year % 100 != 0 || year % 400 == 0)
}

/// Days in month `month` (0 for January) of a year that is, or is not, a
/// leap year.
pub open spec fn length_of_month(month: int, leap: bool) -> int {
    if month == 1 {
        if leap {
            29
        } else {
            28
        }
    } else if month == 3 || month == 5 || month == 8 || month == 10 {
        30
    } else {
        31
    }
}

/// Days that lie before the first of month `month` (0 for January) in a year
/// that is, or is not, a leap year: the lengths of the months before it.
pub open spec fn start_of_month(month: int, leap: bool) -> int
    decreases month,
{
    if month <= 0 {
        0
    } else {
        start_of_month(month - 1, leap) + length_of_month(month - 1, leap)
    }
}

/// Days in month `month` (0 for January) of `year`.
pub open spec fn days_in_month(year: int, month: int) -> int {
    length_of_month(month, is_leap_year(year))
}

/// Days of `year` that lie before the first of month `month` (0 for January).
pub open spec fn days_before_month(year: int, month: int) -> int {
    start_of_month(month, is_leap_year(year))
}

/// Days from 1970-01-01 to January 1 of `year`; negative for earlier years.
pub open spec fn days_before_year(year: int) -> int {
    365 * (year - 1970) + (year - 1969) / 4 - (year - 1901) / 100 + (year - 1601) / 400
}

/// Days from 1970-01-01 to the given date, `month` counted from 0 and `mday`
/// from 1.
pub open spec fn days_from_epoch(year: int, month: int, mday: int) -> int {
    days_before_year(year) + days_before_month(year, month) + mday - 1
}

/// Days since Sunday of the given date; 1970-01-01 was a Thursday.
pub open spec fn weekday_of(year: int, month: int, mday: int) -> int {
    (days_from_epoch(year, month, mday) + 4) % 7
}

impl CalendarRecord {
    /// The calendar year that the record names.
    pub open spec fn civil_year(self) -> int {
        self.year + YEAR_BASE
    }

    /// The fields agree with one another: each lies in its range, the day
    /// exists in its month, and the day of the year and the day of the week
    /// are those of that date in the proleptic Gregorian calendar.
    pub open spec fn consistent(self) -> bool {
        &&& 0 <= self.sec <= 60
        &&& 0 <= self.min <= 59
        &&& 0 <= self.hour <= 23
        &&& 0 <= self.mon <= 11
        &&& 1 <= self.mday <= days_in_month(self.civil_year(), self.mon as int)
        &&& self.yday == days_before_month(self.civil_year(), self.mon as int) + self.mday - 1
        &&& self.wday == weekday_of(self.civil_year(), self.mon as int, self.mday as int)
    }

    /// Decides [`CalendarRecord::consistent`].
    pub fn is_consistent(&self) -> (ok: bool)
        ensures
            ok == self.consistent(),
    {
        if self.sec < 0 || self.sec > 60 || self.min < 0 || self.min > 59 || self.hour < 0
            || self.hour > 23 || self.mon < 0 || self.mon > 11 {
            return false;
        }
        let shifted: u64 = (self.year as i64 + YEAR_BASE + CYCLE_SHIFT) as u64;
        let leap: bool = shifted % 4 == 0 && (shifted % 100 != 0 || shifted % 400 == 0);
        proof {
            lemma_shift_keeps_calendar(self.civil_year(), self.yday + 4);
            assert(shifted == self.civil_year() + CYCLE_SHIFT);
            assert(leap == is_leap_year(self.civil_year()));
        }
        let month_len: i32 = month_length(self.mon, leap);
        if self.mday < 1 || self.mday > month_len {
            return false;
        }
        let yday: i32 = month_start(self.mon, leap) + self.mday - 1;
        if self.yday != yday {
            return false;
        }
        let leap_days: u64 = (shifted - 1969) / 4 - (shifted - 1901) / 100 + (shifted - 1601) / 400;
        let days: u64 = 365 * (shifted - 1970) + leap_days + yday as u64;
        let wday: u64 = (days + 4) % 7;
        assert(days == days_before_year(self.civil_year() + CYCLE_SHIFT) + yday);
        assert(wday == weekday_of(self.civil_year(), self.mon as int, self.mday as int));
        self.wday >= 0 && self.wday as u64 == wday
    }
}

/// Length of month `mon` in a year that is, or is not, a leap year.
fn month_length(mon: i32, leap: bool) -> (len: i32)
    requires
        0 <= mon <= 11,
    ensures
        len == length_of_month(mon as int, leap),
        28 <= len <= 31,
{
    if mon == 1 {
        if leap {
            29
        } else {
            28
        }
    } else if mon == 3 || mon == 5 || mon == 8 || mon == 10 {
        30
    } else {
        31
    }
}

/// Days before the first of month `mon` in a year that is, or is not, a leap
/// year.
fn month_start(mon: i32, leap: bool) -> (days: i32)
    requires
        0 <= mon <= 11,
    ensures
        days == start_of_month(mon as int, leap),
        0 <= days <= 335,
{
    let mut days: i32 = 0;
    let mut m: i32 = 0;
    while m < mon
        invariant
            0 <= m <= mon <= 11,
            0 <= days <= 31 * m,
            days == start_of_month(m as int, leap),
        decreases mon - m,
    {
        days = days + month_length(m, leap);
        m = m + 1;
    }
    proof {
        lemma_start_of_month_bound(mon as int, leap);
    }
    days
}

/// The first of a month lies at most 335 days into its year, and the month
/// ends within the year.
pub proof fn lemma_start_of_month_bound(month: int, leap: bool)
    requires
        0 <= month <= 11,
    ensures
        0 <= start_of_month(month, leap) <= 335,
        start_of_month(month, leap) + length_of_month(month, leap) <= (if leap {
            366int
        } else {
            365int
        }),
{
    reveal_with_fuel(start_of_month, 13);
}

/// Going from `x` to `x + 1` raises the quotient by `k` by one exactly when
/// `x + 1` is a multiple of `k`.
proof fn lemma_quotient_step(x: int, k: int)
    requires
        k > 1,
    ensures
        (x + 1) / k == x / k + (if (x + 1) % k == 0 {
            1int
        } else {
            0int
        }),
{
    let q = x / k;
    let r = x % k;
    lemma_fundamental_div_mod(x, k);
    lemma_mod_bound(x, k);
    if r + 1 < k {
        assert(x + 1 == q * k + (r + 1));
        lemma_fundamental_div_mod_converse(x + 1, k, q, r + 1);
    } else {
        assert(x + 1 == (q + 1) * k + 0) by (nonlinear_arith)
            requires
                x == k * q + r,
                r + 1 == k,
        ;
        lemma_fundamental_div_mod_converse(x + 1, k, q + 1, 0);
    }
}

/// A multiple of 400 is a multiple of 100, and a multiple of 100 is one of 4.
proof fn lemma_century_multiples(year: int)
    ensures
        year % 400 == 0 ==> year % 100 == 0,
        year % 100 == 0 ==> year % 4 == 0,
{
    lemma_mod_mod(year, 100, 4);
    lemma_mod_mod(year, 4, 25);
    assert(100int * 4 == 400 && 4int * 25 == 100);
    assert(0int % 100 == 0 && 0int % 4 == 0);
}

/// A year is followed by the next after 365 days, or after 366 if it is a
/// leap year, and 1970 starts at day zero.
pub proof fn lemma_year_length(year: int)
    ensures
        days_before_year(1970) == 0,
        days_before_year(year + 1) - days_before_year(year) == (if is_leap_year(year) {
            366int
        } else {
            365int
        }),
{
    let fourth: int = if year % 4 == 0 { 1 } else { 0 };
    let hundredth: int = if year % 100 == 0 { 1 } else { 0 };
    let four_hundredth: int = if year % 400 == 0 { 1 } else { 0 };
    assert((year + 1 - 1969) / 4 == (year - 1969) / 4 + fourth) by {
        lemma_quotient_step(year - 1969, 4);
        lemma_mod_multiples_vanish(-492, year, 4);
        assert(4 * -492 + year == year - 1969 + 1);
    }
    assert((year + 1 - 1901) / 100 == (year - 1901) / 100 + hundredth) by {
        lemma_quotient_step(year - 1901, 100);
        lemma_mod_multiples_vanish(-19, year, 100);
        assert(100 * -19 + year == year - 1901 + 1);
    }
    assert((year + 1 - 1601) / 400 == (year - 1601) / 400 + four_hundredth) by {
        lemma_quotient_step(year - 1601, 400);
        lemma_mod_multiples_vanish(-4, year, 400);
        assert(400 * -4 + year == year - 1601 + 1);
    }
    assert(days_before_year(year + 1) - days_before_year(year) == 365 + fourth - hundredth
        + four_hundredth);
    lemma_century_multiples(year);
}

/// The Gregorian calendar repeats after 400 years, weekdays included.
pub proof fn lemma_gregorian_cycle(year: int, month: int, mday: int)
    ensures
        is_leap_year(year + 400) == is_leap_year(year),
        days_in_month(year + 400, month) == days_in_month(year, month),
        days_before_month(year + 400, month) == days_before_month(year, month),
        days_before_year(year + 400) == days_before_year(year) + 146097,
        weekday_of(year + 400, month, mday) == weekday_of(year, month, mday),
{
    lemma_mod_multiples_vanish(100, year, 4);
    lemma_mod_multiples_vanish(4, year, 100);
    lemma_mod_multiples_vanish(1, year, 400);
    lemma_hoist_over_denominator(year - 1969, 100, 4);
    lemma_hoist_over_denominator(year - 1901, 4, 100);
    lemma_hoist_over_denominator(year - 1601, 1, 400);
    assert(is_leap_year(year + 400) == is_leap_year(year));
    assert(days_before_year(year + 400) == days_before_year(year) + 146097);
    lemma_mod_multiples_vanish(20871, days_from_epoch(year, month, mday) + 4, 7);
}

/// Lifting a year by [`CYCLE_SHIFT`] keeps its leap status, moves its first
/// day by a whole number of weeks, and so keeps every weekday in it.
proof fn lemma_shift_keeps_calendar(year: int, offset: int)
    ensures
        is_leap_year(year + CYCLE_SHIFT) == is_leap_year(year),
        days_before_year(year + CYCLE_SHIFT) == days_before_year(year) + 784_352_424_870,
        (days_before_year(year + CYCLE_SHIFT) + offset) % 7 == (days_before_year(year) + offset)
            % 7,
{
    lemma_mod_multiples_vanish(536_871_000, year, 4);
    lemma_mod_multiples_vanish(21_474_840, year, 100);
    lemma_mod_multiples_vanish(5_368_710, year, 400);
    lemma_hoist_over_denominator(year - 1969, 536_871_000, 4);
    lemma_hoist_over_denominator(year - 1901, 21_474_840, 100);
    lemma_hoist_over_denominator(year - 1601, 5_368_710, 400);
    lemma_mod_multiples_vanish(112_050_346_410, days_before_year(year) + offset, 7);
}

/// The months of a year add up to its length.
pub proof fn lemma_months_fill_the_year(leap: bool)
    ensures
        start_of_month(12, leap) == (if leap {
            366int
        } else {
            365int
        }),
{
    reveal_with_fuel(start_of_month, 13);
}

/// The date that follows the given one: the month and the year turn over
/// where they end.
pub open spec fn day_after(year: int, month: int, mday: int) -> (int, int, int) {
    if mday < days_in_month(year, month) {
        (year, month, mday + 1)
    } else if month < 11 {
        (year, month + 1, 1)
    } else {
        (year + 1, 0, 1)
    }
}

/// Day numbers run with the calendar: the date after a date has the next day
/// number and the next weekday.
pub proof fn lemma_successive_days(year: int, month: int, mday: int)
    requires
        0 <= month <= 11,
        1 <= mday <= days_in_month(year, month),
    ensures
        ({
            let (y, m, d) = day_after(year, month, mday);
            &&& days_from_epoch(y, m, d) == days_from_epoch(year, month, mday) + 1
            &&& weekday_of(y, m, d) == (weekday_of(year, month, mday) + 1) % 7
        }),
{
    let leap = is_leap_year(year);
    let today = days_from_epoch(year, month, mday);
    let (y, m, d) = day_after(year, month, mday);
    if mday < days_in_month(year, month) {
    } else if month < 11 {
        assert(start_of_month(month + 1, leap) == start_of_month(month, leap) + length_of_month(
            month,
            leap,
        ));
    } else {
        lemma_months_fill_the_year(leap);
        assert(start_of_month(12, leap) == start_of_month(11, leap) + length_of_month(11, leap));
        lemma_year_length(year);
        assert(start_of_month(0, is_leap_year(year + 1)) == 0);
    }
    assert(days_from_epoch(y, m, d) == today + 1);
    lemma_add_mod_noop(today + 4, 1, 7);
    assert(1int % 7 == 1);
}

/// In a consistent record every field lies in its range.
pub proof fn lemma_consistent_ranges(record: CalendarRecord)
    requires
        record.consistent(),
    ensures
        0 <= record.mon <= 11,
        1 <= record.mday <= 31,
        0 <= record.wday <= 6,
        0 <= record.yday <= 365,
        record.yday == 365 ==> is_leap_year(record.civil_year()),
{
    lemma_start_of_month_bound(record.mon as int, is_leap_year(record.civil_year()));
}

} // verus!
