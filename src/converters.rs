//! Conversions between calendar dates, clock times and plain counts of days and seconds.
//! Day 0 is the first of January of year 0 (proleptic Gregorian calendar).
use vstd::prelude::*;

verus! {

/// Whether `year` is a leap year of the Gregorian calendar.
pub open spec fn spec_is_leap_year(year: int) -> bool {
    year % 4 == 0 && (year % 100 != 0 || year % 400 == 0)
}

/// Number of days of `year`.
pub open spec fn spec_days_in_year(year: int) -> int {
    if spec_is_leap_year(year) {
        366
    } else {
        365
    }
}

/// Number of days of `month` in `year`; 0 for a number that names no month.
pub open spec fn spec_days_of_month(year: int, month: int) -> int {
    if month == 1 || month == 3 || month == 5 || month == 7 || month == 8 || month == 10
        || month == 12 {
        31
    } else if month == 4 || month == 6 || month == 9 || month == 11 {
        30
    } else if month == 2 {
        if spec_is_leap_year(year) {
            29
        } else {
            28
        }
    } else {
        0
    }
}

/// Number of leap years among the years `0 .. year`.
pub open spec fn leap_years_before(year: int) -> int {
    (year + 3) / 4 - (year + 99) / 100 + (year + 399) / 400
}

/// Number of days from the start of year 0 to the start of `year`.
pub open spec fn days_before_year(year: int) -> int {
    365 * year + leap_years_before(year)
}

/// Number of days from the start of `year` to the start of `month` (for `month >= 1`).
pub open spec fn days_before_month(year: int, month: int) -> int
    decreases month,
{
    if month <= 1 {
        0
    } else {
        days_before_month(year, month - 1) + spec_days_of_month(year, month - 1)
    }
}

/// The day number of the date `year-month-day`.
pub open spec fn date_to_days(year: int, month: int, day: int) -> int {
    days_before_year(year) + days_before_month(year, month) + day - 1
}

/// Whether `year-month-day` names a day of the calendar.
pub open spec fn is_valid_date(year: int, month: int, day: int) -> bool {
    1 <= month <= 12 && 1 <= day <= spec_days_of_month(year, month)
}

proof fn lemma_div4_step(y: int)
    requires
        y >= 0,
    ensures
        (y + 4) / 4 == (y + 3) / 4 + (if y % 4 == 0 { 1int } else { 0 }),
{
}

proof fn lemma_div100_step(y: int)
    requires
        y >= 0,
    ensures
        (y + 100) / 100 == (y + 99) / 100 + (if y % 100 == 0 { 1int } else { 0 }),
{
}

proof fn lemma_div400_step(y: int)
    requires
        y >= 0,
    ensures
        (y + 400) / 400 == (y + 399) / 400 + (if y % 400 == 0 { 1int } else { 0 }),
{
}

proof fn lemma_days_before_next_year(year: int)
    requires
        year >= 0,
    ensures
        days_before_year(year + 1) == days_before_year(year) + spec_days_in_year(year),
{
    lemma_div4_step(year);
    lemma_div100_step(year);
    lemma_div400_step(year);
}

proof fn lemma_four_hundred_years(q: int)
    requires
        q >= 0,
    ensures
        days_before_year(400 * q) == 146097 * q,
{
}

proof fn lemma_days_before_year_monotone(a: int, b: int)
    requires
        0 <= a <= b,
    ensures
        days_before_year(a) <= days_before_year(b),
        days_before_year(a) + 365 * (b - a) <= days_before_year(b),
{
}

proof fn lemma_days_before_month_step(year: int, month: int)
    requires
        month >= 1,
    ensures
        days_before_month(year, month + 1) == days_before_month(year, month) + spec_days_of_month(
            year,
            month,
        ),
{
}

proof fn lemma_whole_year(year: int)
    ensures
        days_before_month(year, 13) == spec_days_in_year(year),
        days_before_month(year, 12) + 31 == spec_days_in_year(year),
{
    reveal_with_fuel(days_before_month, 13);
}

proof fn lemma_days_before_year_strict(a: int, b: int)
    requires
        0 <= a < b,
    ensures
        days_before_year(a) + spec_days_in_year(a) <= days_before_year(b),
    decreases b - a,
{
    lemma_days_before_next_year(a);
    if a + 1 < b {
        lemma_days_before_year_strict(a + 1, b);
        lemma_days_before_year_monotone(a + 1, b);
    }
}

/// A valid date lies within its year.
pub proof fn lemma_date_within_year(y: int, m: int, d: int)
    requires
        y >= 0,
        is_valid_date(y, m, d),
    ensures
        0 <= days_before_year(y) <= date_to_days(y, m, d) < days_before_year(y)
            + spec_days_in_year(y),
{
    lemma_whole_year(y);
    if m < 12 {
        lemma_month_order(y, m, 12);
    }
    if m > 1 {
        lemma_month_order(y, 1, m);
    }
}

proof fn lemma_month_order(y: int, m1: int, m2: int)
    requires
        1 <= m1 < m2 <= 12,
    ensures
        days_before_month(y, m1) + spec_days_of_month(y, m1) <= days_before_month(y, m2),
    decreases m2 - m1,
{
    lemma_days_before_month_step(y, m1);
    if m1 + 1 < m2 {
        lemma_month_order(y, m1 + 1, m2);
        lemma_days_before_month_step(y, m1 + 1);
    }
}

/// Distinct dates have distinct day numbers.
pub proof fn lemma_date_unique(y1: int, m1: int, d1: int, y2: int, m2: int, d2: int)
    requires
        y1 >= 0,
        y2 >= 0,
        is_valid_date(y1, m1, d1),
        is_valid_date(y2, m2, d2),
        date_to_days(y1, m1, d1) == date_to_days(y2, m2, d2),
    ensures
        y1 == y2 && m1 == m2 && d1 == d2,
{
    lemma_date_within_year(y1, m1, d1);
    lemma_date_within_year(y2, m2, d2);
    if y1 < y2 {
        lemma_days_before_year_strict(y1, y2);
    } else if y2 < y1 {
        lemma_days_before_year_strict(y2, y1);
    }
    if m1 < m2 {
        lemma_month_order(y1, m1, m2);
    } else if m2 < m1 {
        lemma_month_order(y1, m2, m1);
    }
}

/// Splits a number of seconds into hours, minutes and seconds.
pub fn from_seconds_to_h_mm_ss(seconds: u64) -> (r: (u64, u8, u8))
    ensures
        r.0 == seconds / 3600,
        r.1 == (seconds % 3600) / 60,
        r.2 == seconds % 60,
        r.1 < 60 && r.2 < 60,
        r.0 * 3600 + r.1 * 60 + r.2 == seconds,
{
    proof {
        assert(seconds == (seconds / 3600) * 3600 + (seconds % 3600) / 60 * 60 + seconds % 60)
            by (nonlinear_arith);
    }
    let hours = seconds / 3600;
    let minutes = ((seconds % 3600) / 60) as u8;
    let secs = (seconds % 60) as u8;
    (hours, minutes, secs)
}

/// The number of seconds in `hours` hours, `minutes` minutes and `seconds` seconds.
pub fn from_h_mm_ss_to_seconds(hours: u64, minutes: u8, seconds: u8) -> (r: u64)
    requires
        hours * 3600 + minutes * 60 + seconds <= u64::MAX,
    ensures
        r == hours * 3600 + minutes * 60 + seconds,
{
    hours * 3600 + (minutes as u64) * 60 + (seconds as u64)
}

/// The number of seconds in the given days, hours, minutes and seconds.
pub fn from_d_hh_mm_ss_to_seconds(days: u64, hours: u8, minutes: u8, seconds: u8) -> (r: u64)
    requires
        days * 86400 + hours * 3600 + minutes * 60 + seconds <= u64::MAX,
    ensures
        r == days * 86400 + hours * 3600 + minutes * 60 + seconds,
{
    days * 24 * 3600 + (hours as u64) * 3600 + (minutes as u64) * 60 + seconds as u64
}

/// The day number and the second of the day of a date and clock time.
pub fn from_yyyy_mm_dd_hh_mm_ss_to_days_seconds(
    year: u32,
    month: u8,
    day: u8,
    hours: u8,
    minutes: u8,
    seconds: u8,
) -> (r: (u64, u32))
    requires
        date_to_days(year as int, month as int, day as int) >= 0,
    ensures
        r.0 == date_to_days(year as int, month as int, day as int),
        r.1 == hours * 3600 + minutes * 60 + seconds,
{
    let days = from_yyyy_mm_dd_to_days(year, month, day);
    let secs = from_h_mm_ss_to_seconds(hours as u64, minutes, seconds);
    (days, secs as u32)
}

/// The date and clock time of a day number and a second of that day.
pub fn from_days_seconds_to_yyyy_mm_dd_hh_mm_ss(days: u64, seconds: u32) -> (r: (
    u32,
    u8,
    u8,
    u8,
    u8,
    u8,
))
    requires
        days < 1568704557546,
        seconds < 921600,
    ensures
        is_valid_date(r.0 as int, r.1 as int, r.2 as int),
        date_to_days(r.0 as int, r.1 as int, r.2 as int) == days,
        r.3 == seconds / 3600,
        r.4 == (seconds % 3600) / 60,
        r.5 == seconds % 60,
{
    let (year, month, day) = from_days_to_yyyy_mm_dd(days);
    let (hours, minutes, secs) = from_seconds_to_h_mm_ss(seconds as u64);
    (year, month, day, hours as u8, minutes, secs)
}

/// The day number of the date `year-month-day` (day 0 is 0000-01-01).
pub fn from_yyyy_mm_dd_to_days(year: u32, month: u8, day: u8) -> (r: u64)
    requires
        date_to_days(year as int, month as int, day as int) >= 0,
    ensures
        r == date_to_days(year as int, month as int, day as int),
{
    let mut days: u64 = 0;
    let four_hundreds: u32 = year / 400;
    proof {
        lemma_four_hundred_years(four_hundreds as int);
        lemma_days_before_year_monotone(400 * four_hundreds, year as int);
    }
    days += four_hundreds as u64 * 146097;
    let years_counted: u32 = four_hundreds * 400;
    let mut y: u32 = years_counted;
    while y < year
        invariant
            years_counted <= y <= year,
            days == days_before_year(y as int),
            days_before_year(year as int) <= 1568704557546 + 146097,
        decreases year - y,
    {
        proof {
            lemma_days_before_next_year(y as int);
            lemma_days_before_year_monotone(y + 1, year as int);
        }
        days += get_days_in_year(y) as u64;
        y += 1;
    }
    let mut m: u8 = 1;
    if month > 1 {
        while m < month
            invariant
                1 <= m <= month,
                days == days_before_year(year as int) + days_before_month(year as int, m as int),
                days_before_year(year as int) <= 1568704557546 + 146097,
                days_before_month(year as int, m as int) <= 366 * m,
            decreases month - m,
        {
            proof {
                lemma_days_before_month_step(year as int, m as int);
            }
            days += days_of_month(year, m) as u64;
            m += 1;
        }
    }
    days + day as u64 - 1
}

/// The date of a day number (day 0 is 0000-01-01).
pub fn from_days_to_yyyy_mm_dd(days: u64) -> (r: (u32, u8, u8))
    requires
        days < 1568704557546,
    ensures
        is_valid_date(r.0 as int, r.1 as int, r.2 as int),
        date_to_days(r.0 as int, r.1 as int, r.2 as int) == days,
{
    let mut year: u32 = 0;
    let mut month: u8 = 1;
    let mut days_remaining: u64 = days;

    while days_remaining >= 146097
        invariant
            year as int % 400 == 0,
            days_before_year(year as int) + days_remaining == days,
            days < 1568704557546,
        decreases days_remaining,
    {
        proof {
            lemma_four_hundred_years(year as int / 400);
            lemma_four_hundred_years(year as int / 400 + 1);
        }
        days_remaining -= 146097;
        year += 400;
    }
    proof {
        lemma_four_hundred_years(year as int / 400);
        lemma_four_hundred_years(year as int / 400 + 1);
    }
    let ghost start_year = year;
    while days_remaining >= get_days_in_year(year) as u64
        invariant
            start_year <= year <= start_year + 400,
            start_year as int % 400 == 0,
            start_year <= 4294966800,
            days_before_year(year as int) + days_remaining == days,
            days_before_year(start_year as int) + 146097 == days_before_year(start_year + 400),
            days_remaining < days_before_year(start_year + 400) - days_before_year(year as int),
        decreases days_remaining,
    {
        proof {
            lemma_days_before_next_year(year as int);
            lemma_days_before_year_monotone(year + 1, start_year + 400);
        }
        days_remaining -= get_days_in_year(year) as u64;
        year += 1;
    }
    proof {
        lemma_whole_year(year as int);
    }
    while days_remaining >= days_of_month(year, month) as u64
        invariant
            1 <= month <= 12,
            days_before_year(year as int) + days_before_month(year as int, month as int)
                + days_remaining == days,
            days_remaining < spec_days_in_year(year as int) - days_before_month(
                year as int,
                month as int,
            ),
            days_before_month(year as int, 12) + 31 == spec_days_in_year(year as int),
        decreases days_remaining,
    {
        proof {
            lemma_days_before_month_step(year as int, month as int);
        }
        days_remaining -= days_of_month(year, month) as u64;
        month += 1;
    }
    let day = days_remaining as u8 + 1;
    (year, month, day)
}

/// Number of days of `month` in `year` (0 for a number that names no month).
pub fn days_of_month(year: u32, month: u8) -> (r: u8)
    ensures
        r == spec_days_of_month(year as int, month as int),
{
    match month {
        1 | 3 | 5 | 7 | 8 | 10 | 12 => 31,
        4 | 6 | 9 | 11 => 30,
        2 => {
            if is_leap_year(year) {
                29
            } else {
                28
            }
        },
        _ => 0,
    }
}

/// Number of days of `year`.
pub fn get_days_in_year(year: u32) -> (r: u32)
    ensures
        r == spec_days_in_year(year as int),
{
    if is_leap_year(year) {
        366
    } else {
        365
    }
}

/// Returns whether `year` is a leap year.
pub fn is_leap_year(year: u32) -> (r: bool)
    ensures
        r == spec_is_leap_year(year as int),
{
    year % 4 == 0 && (year % 100 != 0 || year % 400 == 0)
}

} // verus!
