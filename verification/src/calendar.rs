//! Calendar arithmetic on the proleptic Gregorian calendar.
//!
//! Dates are plain (year, month, day) triples in the years 1 through 9999.
//! Every date is given a day number: the count of days from the first of
//! January of year 1 (day number 1), which makes comparing and subtracting
//! dates ordinary integer arithmetic.  Weekdays and ISO 8601 week numbers
//! are derived from the day number; the first of January of year 1 is a
//! Monday.

use vstd::prelude::*;

verus! {

/// A calendar date: a date-only value, no time of day.
#[derive(Clone, Copy, Debug, PartialEq, Eq, Structural)]
pub struct Date {
    pub year: i32,
    pub month: u8,
    pub day: u8,
}

/// The standard Gregorian leap-year rule.
pub open spec fn is_leap_year(y: int) -> bool {
    (y % 4 == 0 && y % 100 != 0) || y % 400 == 0
}

pub open spec fn spec_days_in_year(y: int) -> int {
    if is_leap_year(y) {
        366
    } else {
        365
    }
}

pub open spec fn spec_days_in_month(y: int, m: int) -> int {
    if m == 2 {
        if is_leap_year(y) {
            29
        } else {
            28
        }
    } else if m == 4 || m == 6 || m == 9 || m == 11 {
        30
    } else {
        31
    }
}

/// Which (year, month, day) triples the library accepts as dates.
pub open spec fn valid_date(d: Date) -> bool {
    &&& 1 <= d.year <= 9999
    &&& 1 <= d.month <= 12
    &&& 1 <= d.day <= spec_days_in_month(d.year as int, d.month as int)
}

/// Days in year `y` that lie before month `m`.
pub open spec fn spec_days_before_month(y: int, m: int) -> int
    decreases m,
{
    if m <= 1 {
        0
    } else {
        spec_days_before_month(y, m - 1) + spec_days_in_month(y, m - 1)
    }
}

/// Days in years 1, 2, ..., y - 1.
pub open spec fn spec_days_before_year(y: int) -> int
    decreases y,
{
    if y <= 1 {
        0
    } else {
        spec_days_before_year(y - 1) + spec_days_in_year(y - 1)
    }
}

pub open spec fn spec_day_number_ymd(y: int, m: int, d: int) -> int {
    spec_days_before_year(y) + spec_days_before_month(y, m) + d
}

/// Day number of a date: 1 for the first of January of year 1.
pub open spec fn spec_day_number(d: Date) -> int {
    spec_day_number_ymd(d.year as int, d.month as int, d.day as int)
}

/// Zero-based ordinal of a date within its year (0 for the first of January).
pub open spec fn spec_ordinal0(d: Date) -> int {
    spec_days_before_month(d.year as int, d.month as int) + d.day - 1
}

/// Weekday of a date, counted from Monday: 0 is Monday, 6 is Sunday.
pub open spec fn spec_weekday0(d: Date) -> int {
    (spec_day_number(d) - 1) % 7
}

pub proof fn lemma_days_before_month_nonneg(y: int, m: int)
    ensures
        spec_days_before_month(y, m) >= 0,
    decreases m,
{
    if m > 1 {
        lemma_days_before_month_nonneg(y, m - 1);
    }
}

pub proof fn lemma_days_before_year_nonneg(y: int)
    ensures
        spec_days_before_year(y) >= 0,
    decreases y,
{
    if y > 1 {
        lemma_days_before_year_nonneg(y - 1);
    }
}

/// Months later in a year have at least as many days before them.
pub proof fn lemma_days_before_month_mono(y: int, m1: int, m2: int)
    requires
        m1 <= m2,
    ensures
        spec_days_before_month(y, m1) <= spec_days_before_month(y, m2),
    decreases m2 - m1,
{
    if m1 < m2 {
        lemma_days_before_month_mono(y, m1, m2 - 1);
    }
}

/// The days before month 13 are exactly the days of the year.
pub proof fn lemma_days_before_month_full_year(y: int)
    ensures
        spec_days_before_month(y, 13) == spec_days_in_year(y),
{
    assert(spec_days_before_month(y, 13) == spec_days_in_year(y)) by {
        reveal_with_fuel(spec_days_before_month, 14);
    }
}

pub proof fn lemma_days_before_year_mono(y1: int, y2: int)
    requires
        y1 <= y2,
    ensures
        spec_days_before_year(y1) <= spec_days_before_year(y2),
    decreases y2 - y1,
{
    if y1 < y2 {
        lemma_days_before_year_mono(y1, y2 - 1);
    }
}

/// Day numbers respect the lexicographic order on (year, month, day):
/// of two distinct valid dates, the earlier one has the smaller day number.
pub proof fn lemma_day_number_order(a: Date, b: Date)
    requires
        valid_date(a),
        valid_date(b),
        a.year < b.year || (a.year == b.year && a.month < b.month) || (a.year == b.year && a.month
            == b.month && a.day < b.day),
    ensures
        spec_day_number(a) < spec_day_number(b),
{
    let ay = a.year as int;
    let by = b.year as int;
    let am = a.month as int;
    let bm = b.month as int;
    if ay == by && am == bm {
    } else if ay == by {
        // a.month < b.month: a's day stays within month am.
        assert(spec_days_before_month(ay, am) + a.day <= spec_days_before_month(ay, am + 1));
        lemma_days_before_month_mono(ay, am + 1, bm);
    } else {
        // a.year < b.year: a's ordinal stays within year ay.
        assert(spec_days_before_month(ay, am) + a.day <= spec_days_before_month(ay, am + 1));
        lemma_days_before_month_mono(ay, am + 1, 13);
        lemma_days_before_month_full_year(ay);
        assert(spec_days_before_year(ay) + spec_days_in_year(ay) == spec_days_before_year(ay + 1));
        lemma_days_before_year_mono(ay + 1, by);
        lemma_days_before_month_nonneg(by, bm);
    }
}

/// Distinct valid dates have distinct day numbers.
pub proof fn lemma_day_number_injective(a: Date, b: Date)
    requires
        valid_date(a),
        valid_date(b),
        a != b,
    ensures
        spec_day_number(a) != spec_day_number(b),
{
    if a.year < b.year || (a.year == b.year && a.month < b.month) || (a.year == b.year && a.month
        == b.month && a.day < b.day) {
        lemma_day_number_order(a, b);
    } else {
        lemma_day_number_order(b, a);
    }
}

/// Bounds for the day number of any valid date.
pub proof fn lemma_day_number_bounds(d: Date)
    requires
        valid_date(d),
    ensures
        1 <= spec_day_number(d) <= 3_660_000,
{
    lemma_days_before_year_nonneg(d.year as int);
    lemma_days_before_month_nonneg(d.year as int, d.month as int);
    lemma_days_before_year_bound(d.year as int);
    lemma_days_before_month_mono(d.year as int, d.month as int, 13);
    lemma_days_before_month_full_year(d.year as int);
}

/// The running count of days before a year grows by at most 366 a year.
pub proof fn lemma_days_before_year_bound(y: int)
    requires
        1 <= y <= 10000,
    ensures
        spec_days_before_year(y) <= 366 * (y - 1),
        spec_days_before_year(y) >= 365 * (y - 1),
    decreases y,
{
    if y > 1 {
        lemma_days_before_year_bound(y - 1);
    }
}

/// Highest ISO 8601 week number of a year: 53 exactly when the year's
/// Thursday count calls for it (the first of January is a Thursday, or the
/// year is a leap year whose first of January is a Wednesday), else 52.
pub open spec fn spec_max_iso_week(y: int) -> int {
    let wd = (spec_day_number_ymd(y, 1, 1) - 1) % 7;
    if wd == 3 || (is_leap_year(y) && wd == 2) {
        53
    } else {
        52
    }
}

/// The ISO week formula before the year-boundary corrections: week
/// candidates run from 0 (still in the previous year's last week) to 53
/// (possibly already week 1 of the following year).
pub open spec fn spec_iso_raw_week(d: Date) -> int {
    (spec_ordinal0(d) - spec_weekday0(d) + 10) / 7
}

/// ISO 8601 week-numbering year of a date; near the turn of the year it can
/// differ from the calendar year by one.
pub open spec fn spec_iso_week_year(d: Date) -> int {
    let w = spec_iso_raw_week(d);
    if w == 0 {
        d.year - 1
    } else if w == 53 && spec_max_iso_week(d.year as int) == 52 {
        d.year + 1
    } else {
        d.year as int
    }
}

/// ISO 8601 week number of a date, 1 through 53.
pub open spec fn spec_iso_week(d: Date) -> int {
    let w = spec_iso_raw_week(d);
    if w == 0 {
        spec_max_iso_week(d.year - 1)
    } else if w == 53 && spec_max_iso_week(d.year as int) == 52 {
        1
    } else {
        w
    }
}

/// The date one day earlier.
pub open spec fn spec_prev_date(d: Date) -> Date {
    if d.day > 1 {
        Date { year: d.year, month: d.month, day: (d.day - 1) as u8 }
    } else if d.month > 1 {
        Date {
            year: d.year,
            month: (d.month - 1) as u8,
            day: spec_days_in_month(d.year as int, d.month - 1) as u8,
        }
    } else {
        Date { year: (d.year - 1) as i32, month: 12, day: 31 }
    }
}

/// The date `k` days earlier.
pub open spec fn spec_back_days(d: Date, k: nat) -> Date
    decreases k,
{
    if k == 0 {
        d
    } else {
        spec_prev_date(spec_back_days(d, (k - 1) as nat))
    }
}

pub fn is_leap(year: i32) -> (r: bool)
    requires
        year >= 1,
    ensures
        r == is_leap_year(year as int),
{
    (year % 4 == 0 && year % 100 != 0) || year % 400 == 0
}

/// Number of days in the given month of the given year, leap-year aware.
pub fn days_in_month(year: i32, month: u8) -> (r: u8)
    requires
        year >= 1,
        1 <= month <= 12,
    ensures
        r == spec_days_in_month(year as int, month as int),
{
    if month == 2 {
        if is_leap(year) {
            29
        } else {
            28
        }
    } else if month == 4 || month == 6 || month == 9 || month == 11 {
        30
    } else {
        31
    }
}

/// Number of days in the given year: 366 for leap years, else 365.
pub fn days_in_year(year: i32) -> (r: u32)
    requires
        year >= 1,
    ensures
        r == spec_days_in_year(year as int),
{
    if is_leap(year) {
        366
    } else {
        365
    }
}

fn days_before_month(year: i32, month: u8) -> (r: u32)
    requires
        year >= 1,
        1 <= month <= 13,
    ensures
        r == spec_days_before_month(year as int, month as int),
        r <= 372,
{
    let mut m: u8 = 1;
    let mut acc: u32 = 0;
    while m < month
        invariant
            1 <= m <= month <= 13,
            year >= 1,
            acc == spec_days_before_month(year as int, m as int),
            acc <= 31 * (m - 1),
        decreases month - m,
    {
        acc = acc + days_in_month(year, m) as u32;
        m = m + 1;
    }
    acc
}

fn days_before_year(year: i32) -> (r: u64)
    requires
        1 <= year <= 10000,
    ensures
        r == spec_days_before_year(year as int),
{
    let mut y: i32 = 1;
    let mut acc: u64 = 0;
    while y < year
        invariant
            1 <= y <= year <= 10000,
            acc == spec_days_before_year(y as int),
            acc <= 366 * (y - 1),
        decreases year - y,
    {
        acc = acc + days_in_year(y) as u64;
        y = y + 1;
    }
    acc
}

/// Day number of a valid date; day 1 is the first of January of year 1.
pub fn day_number(d: Date) -> (r: u64)
    requires
        valid_date(d),
    ensures
        r == spec_day_number(d),
        1 <= r <= 3_660_000,
{
    proof {
        lemma_day_number_bounds(d);
    }
    days_before_year(d.year) + days_before_month(d.year, d.month) as u64 + d.day as u64
}

/// Zero-based ordinal of a valid date within its year.
pub fn ordinal0(d: Date) -> (r: u32)
    requires
        valid_date(d),
    ensures
        r == spec_ordinal0(d),
        r <= 365,
{
    proof {
        lemma_days_before_month_nonneg(d.year as int, d.month as int);
        lemma_days_before_month_mono(d.year as int, d.month as int + 1, 13);
        lemma_days_before_month_full_year(d.year as int);
    }
    days_before_month(d.year, d.month) + d.day as u32 - 1
}

/// Weekday of a valid date: 0 is Monday, 6 is Sunday.
pub fn weekday0(d: Date) -> (r: u8)
    requires
        valid_date(d),
    ensures
        r == spec_weekday0(d),
        r <= 6,
{
    let n = day_number(d);
    ((n - 1) % 7) as u8
}

/// Highest ISO week number of the given year: 52 or 53.
pub fn max_iso_week(year: i32) -> (r: u8)
    requires
        1 <= year <= 9999,
    ensures
        r == spec_max_iso_week(year as int),
        52 <= r <= 53,
{
    let jan1 = Date { year, month: 1, day: 1 };
    let wd = weekday0(jan1);
    if wd == 3 || (is_leap(year) && wd == 2) {
        53
    } else {
        52
    }
}

/// ISO 8601 week number and week-numbering year of a valid date.
pub fn iso_week_of(d: Date) -> (r: (u8, i32))
    requires
        valid_date(d),
    ensures
        r.0 == spec_iso_week(d),
        r.1 == spec_iso_week_year(d),
        1 <= r.0 <= 53,
        d.year - 1 <= r.1 <= d.year + 1,
{
    let ord = ordinal0(d);
    let wd = weekday0(d) as u32;
    let w = (ord + 10 - wd) / 7;
    if w == 0 {
        // Only the first days of January can still belong to the previous
        // year's last week, and in year 1 those days start the week, so the
        // previous year is always a real one.
        proof {
            assert(spec_ordinal0(d) <= spec_weekday0(d) - 4);
            if d.year == 1 {
                assert(spec_day_number(d) == spec_ordinal0(d) + 1);
                vstd::arithmetic::div_mod::lemma_small_mod(spec_ordinal0(d) as nat, 7);
                assert(false);
            }
        }
        (max_iso_week(d.year - 1), d.year - 1)
    } else if w == 53 && max_iso_week(d.year) == 52 {
        (1, d.year + 1)
    } else {
        (w as u8, d.year)
    }
}

/// Whether a (year, month, day) triple is a date the library accepts.
pub fn date_valid(d: Date) -> (r: bool)
    ensures
        r == valid_date(d),
{
    1 <= d.year && d.year <= 9999 && 1 <= d.month && d.month <= 12 && 1 <= d.day && d.day
        <= days_in_month(d.year, d.month)
}

/// The date one day earlier than a valid date other than the very first.
pub fn prev_date(d: Date) -> (r: Date)
    requires
        valid_date(d),
        !(d.year == 1 && d.month == 1 && d.day == 1),
    ensures
        valid_date(r),
        r == spec_prev_date(d),
        spec_day_number(r) == spec_day_number(d) - 1,
{
    if d.day > 1 {
        Date { year: d.year, month: d.month, day: d.day - 1 }
    } else if d.month > 1 {
        let pm = d.month - 1;
        let dim = days_in_month(d.year, pm);
        Date { year: d.year, month: pm, day: dim }
    } else {
        proof {
            lemma_days_before_month_full_year(d.year - 1);
        }
        Date { year: d.year - 1, month: 12, day: 31 }
    }
}

} // verus!
