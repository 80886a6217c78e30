use chrono::Datelike;
use chrono::NaiveDate;
use vstd::prelude::*;

verus! {

/// Earliest year a `Date` may carry (the earliest that chrono represents).
pub const MIN_YEAR: i32 = -262143;

/// Latest year a `Date` may carry: chrono still represents the year after it,
/// so the first day of the following year and month always exists.
pub const MAX_YEAR: i32 = 262141;

pub open spec fn is_leap_year(y: int) -> bool {
    y % 4 == 0 && (y % 100 != 0 || y % 400 == 0)
}

pub open spec fn month_length(y: int, m: int) -> int {
    if m == 2 {
        if is_leap_year(y) { 29 } else { 28 }
    } else if m == 4 || m == 6 || m == 9 || m == 11 {
        30
    } else {
        31
    }
}

pub open spec fn year_length(y: int) -> int {
    if is_leap_year(y) { 366 } else { 365 }
}

/// Days of year `y` that come before the first day of month `m`.
pub open spec fn days_before_month(y: int, m: int) -> int
    decreases m,
{
    if m <= 1 {
        0
    } else {
        days_before_month(y, m - 1) + month_length(y, m - 1)
    }
}

/// Days of the proleptic Gregorian calendar before January 1 of year `y`,
/// counted from January 1 of year 1.
pub open spec fn days_before_year(y: int) -> int {
    365 * (y - 1) + (y - 1) / 4 - (y - 1) / 100 + (y - 1) / 400
}

/// Day number of a calendar date, January 1 of year 1 being day 1.
pub open spec fn days_from_ce(y: int, m: int, d: int) -> int {
    days_before_year(y) + days_before_month(y, m) + d
}

pub open spec fn valid_ymd(y: int, m: int, d: int) -> bool {
    &&& MIN_YEAR <= y <= MAX_YEAR
    &&& 1 <= m <= 12
    &&& 1 <= d <= month_length(y, m)
}

/// A calendar date of the proleptic Gregorian calendar.
#[derive(Clone, Copy, Debug, PartialEq, Eq, Structural)]
pub struct Date {
    pub year: i32,
    pub month: u32,
    pub day: u32,
}

impl Date {
    pub open spec fn wf(&self) -> bool {
        valid_ymd(self.year as int, self.month as int, self.day as int)
    }

    /// The date's day number, January 1 of year 1 being day 1.
    pub open spec fn num(&self) -> int {
        days_from_ce(self.year as int, self.month as int, self.day as int)
    }

    /// The date's day number, January 1 of year 1 being day 1.
    pub fn number(&self) -> (r: i64)
        requires
            self.wf(),
        ensures
            r == self.num(),
    {
        day_number(self.year, self.month, self.day)
    }

    /// The date with the given year, month and day, if it exists in the
    /// supported range.
    pub fn from_ymd(year: i32, month: u32, day: u32) -> (r: Option<Date>)
        ensures
            r is Some <==> valid_ymd(year as int, month as int, day as int),
            r matches Some(d) ==> d.year == year && d.month == month && d.day == day,
    {
        if year < MIN_YEAR || year > MAX_YEAR || month < 1 || month > 12 || day < 1 {
            return None;
        }
        if day as u64 > month_len(year, month) as u64 {
            return None;
        }
        Some(Date { year, month, day })
    }

    /// First day of the date's year.
    pub fn year_start(&self) -> (r: Date)
        requires
            self.wf(),
        ensures
            r.wf(),
            r.year == self.year && r.month == 1 && r.day == 1,
    {
        Date { year: self.year, month: 1, day: 1 }
    }

    /// First day of the date's month.
    pub fn month_start(&self) -> (r: Date)
        requires
            self.wf(),
        ensures
            r.wf(),
            r.year == self.year && r.month == self.month && r.day == 1,
    {
        Date { year: self.year, month: self.month, day: 1 }
    }

    /// First day of the year after the date's year.
    pub fn next_year_start(&self) -> (r: Date)
        requires
            self.wf(),
        ensures
            r.year == self.year + 1 && r.month == 1 && r.day == 1,
            r.year <= MAX_YEAR + 1,
    {
        Date { year: self.year + 1, month: 1, day: 1 }
    }

    /// First day of the month after the date's month; December rolls over
    /// into January of the next year.
    pub fn next_month_start(&self) -> (r: Date)
        requires
            self.wf(),
        ensures
            self.month < 12 ==> r.year == self.year && r.month == self.month + 1,
            self.month == 12 ==> r.year == self.year + 1 && r.month == 1,
            r.day == 1,
            r.year <= MAX_YEAR + 1,
            1 <= r.month <= 12,
    {
        if self.month == 12 {
            Date { year: self.year + 1, month: 1, day: 1 }
        } else {
            Date { year: self.year, month: self.month + 1, day: 1 }
        }
    }
}

proof fn lemma_leap_shift(year: int)
    ensures
        is_leap_year(year) == is_leap_year(year + 400000),
{
    vstd::arithmetic::div_mod::lemma_mod_multiples_vanish(100000, year, 4);
    vstd::arithmetic::div_mod::lemma_mod_multiples_vanish(4000, year, 100);
    vstd::arithmetic::div_mod::lemma_mod_multiples_vanish(1000, year, 400);
}

fn is_leap(year: i32) -> (r: bool)
    requires
        MIN_YEAR <= year,
    ensures
        r == is_leap_year(year as int),
{
    // A shift by a multiple of 400 years keeps the leap-year rule and makes
    // the year non-negative.
    let z: i64 = year as i64 + 400000;
    assert(z >= 0);
    let y: u64 = z as u64;
    proof {
        assert(y as int == year as int + 400000);
        lemma_leap_shift(year as int);
    }
    let by4 = y % 4 == 0;
    let by100 = y % 100 == 0;
    let by400 = y % 400 == 0;
    by4 && (!by100 || by400)
}

fn month_len(year: i32, month: u32) -> (r: u32)
    requires
        MIN_YEAR <= year,
        1 <= month <= 12,
    ensures
        r as int == month_length(year as int, month as int),
{
    if month == 2 {
        if is_leap(year) {
            29
        } else {
            28
        }
    } else if month == 4 || month == 6 || month == 9 || month == 11 {
        30
    } else {
        31
    }
}

/// Relies on chrono's `NaiveDate::from_ymd_opt`, which accepts every date of
/// the proleptic Gregorian calendar in its year range, and on
/// `Datelike::num_days_from_ce`, which counts days with January 1 of year 1
/// as day 1.
#[verifier::external_body]
pub(crate) fn day_number(year: i32, month: u32, day: u32) -> (r: i64)
    requires
        MIN_YEAR <= year <= MAX_YEAR + 1,
        1 <= month <= 12,
        1 <= day <= month_length(year as int, month as int),
    ensures
        r == days_from_ce(year as int, month as int, day as int),
{
    NaiveDate::from_ymd_opt(year, month, day).unwrap().num_days_from_ce() as i64
}

proof fn lemma_step_div(x: int, k: int)
    requires
        k > 0,
    ensures
        (x + 1) / k - x / k == (if (x + 1) % k == 0 { 1int } else { 0int }),
{
    vstd::arithmetic::div_mod::lemma_fundamental_div_mod(x, k);
    vstd::arithmetic::div_mod::lemma_fundamental_div_mod(x + 1, k);
    assert((x + 1) / k - x / k == (if (x + 1) % k == 0 { 1int } else { 0int })) by (nonlinear_arith)
        requires
            x == k * (x / k) + x % k,
            x + 1 == k * ((x + 1) / k) + (x + 1) % k,
            0 <= x % k < k,
            0 <= (x + 1) % k < k,
            k > 0,
    ;
}

/// The years' day numbers are as far apart as the first year is long.
pub proof fn lemma_year_span(y: int)
    ensures
        days_before_year(y + 1) - days_before_year(y) == year_length(y),
{
    lemma_step_div(y - 1, 4);
    lemma_step_div(y - 1, 100);
    lemma_step_div(y - 1, 400);
    assert(y % 400 == 0 ==> y % 100 == 0 && y % 4 == 0);
    assert(y % 100 == 0 ==> y % 4 == 0);
}

/// Twelve months make up the whole year.
pub proof fn lemma_months_fill_year(y: int)
    ensures
        days_before_month(y, 13) == year_length(y),
{
    reveal_with_fuel(days_before_month, 13);
}

/// Length of the date's month in days: the day numbers of the first day of
/// the following month and of the first day of the date's month, subtracted.
pub fn days_in_month(d: Date) -> (r: i64)
    requires
        d.wf(),
    ensures
        r == month_length(d.year as int, d.month as int),
{
    let first = d.month_start();
    let next = d.next_month_start();
    let a = day_number(first.year, first.month, first.day);
    let b = day_number(next.year, next.month, next.day);
    proof {
        if d.month == 12 {
            lemma_year_span(d.year as int);
            lemma_months_fill_year(d.year as int);
        }
        assert(days_before_month(d.year as int, d.month as int + 1) == days_before_month(
            d.year as int,
            d.month as int,
        ) + month_length(d.year as int, d.month as int));
    }
    b - a
}

/// Length of the date's year in days: the day numbers of January 1 of the
/// following year and of January 1 of the date's year, subtracted.
pub fn days_in_year(d: Date) -> (r: i64)
    requires
        d.wf(),
    ensures
        r == year_length(d.year as int),
{
    let first = d.year_start();
    let next = d.next_year_start();
    let a = day_number(first.year, first.month, first.day);
    let b = day_number(next.year, next.month, next.day);
    proof {
        lemma_year_span(d.year as int);
    }
    b - a
}

/// A year given as era and year of era (`true` for the common era) as a
/// signed year: years before the common era become negative.
pub fn year_as_i32(year_ce: (bool, u32)) -> (r: i32)
    requires
        year_ce.1 <= i32::MAX,
    ensures
        year_ce.0 ==> r == year_ce.1,
        !year_ce.0 ==> r == -(year_ce.1 as int),
{
    if year_ce.0 {
        year_ce.1 as i32
    } else {
        let y: i32 = year_ce.1 as i32;
        0 - y
    }
}

/// February has 29 days in a leap year and 28 in any other.
pub proof fn lemma_february_length(y: int)
    ensures
        is_leap_year(y) ==> month_length(y, 2) == 29,
        !is_leap_year(y) ==> month_length(y, 2) == 28,
{
}

/// Day numbers of supported dates lie well within `i64` arithmetic.
pub proof fn lemma_num_bounds(y: int, m: int, d: int)
    requires
        MIN_YEAR <= y <= MAX_YEAR + 1,
        1 <= m <= 12,
        1 <= d <= 31,
    ensures
        -100_000_000 <= days_from_ce(y, m, d) <= 100_000_000,
{
    reveal_with_fuel(days_before_month, 12);
    assert(0 <= days_before_month(y, m) <= 335);
    let x = y - 1;
    assert(-262144 <= x <= 262142);
    assert(-65536 <= x / 4 <= 65536) by (nonlinear_arith)
        requires
            -262144 <= x <= 262142,
    ;
    assert(-2622 <= x / 100 <= 2622) by (nonlinear_arith)
        requires
            -262144 <= x <= 262142,
    ;
    assert(-656 <= x / 400 <= 656) by (nonlinear_arith)
        requires
            -262144 <= x <= 262142,
    ;
}

} // verus!
