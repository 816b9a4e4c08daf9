//! Calendar dates and wall-clock times as plain values.
//!
//! A `Date` is a proleptic Gregorian calendar date; `day_number` maps it to
//! the count of days since the day before 0001-01-01, which drives date
//! comparison, day arithmetic and the weekday computation (0001-01-01 was a
//! Monday).

use vstd::prelude::*;

verus! {

/// A calendar date (proleptic Gregorian). Valid years run from 1 to 9999.
#[derive(Clone, Copy, Debug, PartialEq, Eq, Structural)]
pub struct Date {
    pub year: u32,
    pub month: u8,
    pub day: u8,
}

/// A wall-clock time of day, minute precision.
#[derive(Clone, Copy, Debug, PartialEq, Eq, Structural)]
pub struct TimeOfDay {
    pub hour: u8,
    pub minute: u8,
}

pub open spec fn time_valid(t: TimeOfDay) -> bool {
    t.hour < 24 && t.minute < 60
}

pub open spec fn is_leap_year(y: int) -> bool {
    (y % 4 == 0 && y % 100 != 0) || y % 400 == 0
}

pub open spec fn days_in_month(y: int, m: int) -> int {
    if m == 2 {
        if is_leap_year(y) {
            29
        } else {
            28
        }
    } else if m == 4 || m == 6 || m == 9 || m == 11 {
        30
    } else {
        31
    }
}

pub open spec fn date_valid(d: Date) -> bool {
    &&& 1 <= d.year <= 9999
    &&& 1 <= d.month <= 12
    &&& 1 <= d.day <= days_in_month(d.year as int, d.month as int)
}

/// Days contributed by the months of year `y` that precede month `m`.
pub open spec fn days_before_month(y: int, m: int) -> int
    decreases m,
{
    if m <= 1 {
        0
    } else {
        days_before_month(y, m - 1) + days_in_month(y, m - 1)
    }
}

/// Number of leap years strictly before year `y`.
pub open spec fn leap_years_before(y: int) -> int {
    (y - 1) / 4 - (y - 1) / 100 + (y - 1) / 400
}

/// 1-based count of days from 0001-01-01 up to and including `d`.
pub open spec fn day_number(d: Date) -> int {
    365 * (d.year - 1) + leap_years_before(d.year as int) + days_before_month(
        d.year as int,
        d.month as int,
    ) + d.day
}

/// ISO weekday number of `d`: 1 = Monday .. 7 = Sunday.
pub open spec fn weekday(d: Date) -> int {
    (day_number(d) - 1) % 7 + 1
}

/// Counting leap years is compatible with stepping one year at a time.
proof fn lemma_leap_step(y: int)
    requires
        y >= 1,
    ensures
        leap_years_before(y + 1) == leap_years_before(y) + if is_leap_year(y) {
            1int
        } else {
            0int
        },
{
    assert(y / 4 == (y - 1) / 4 + if y % 4 == 0 {
        1int
    } else {
        0int
    });
    assert(y / 100 == (y - 1) / 100 + if y % 100 == 0 {
        1int
    } else {
        0int
    });
    assert(y / 400 == (y - 1) / 400 + if y % 400 == 0 {
        1int
    } else {
        0int
    });
    assert(y % 400 == 0 ==> y % 100 == 0);
    assert(y % 100 == 0 ==> y % 4 == 0);
}

/// `leap_years_before` is monotone in the year.
proof fn lemma_leap_monotone(a: int, b: int)
    requires
        1 <= a <= b,
    ensures
        leap_years_before(a) <= leap_years_before(b),
    decreases b - a,
{
    if a < b {
        lemma_leap_monotone(a, b - 1);
        lemma_leap_step(b - 1);
    }
}

/// A full year holds 365 days, plus one more in a leap year.
proof fn lemma_days_in_year(y: int)
    ensures
        days_before_month(y, 13) == 365 + if is_leap_year(y) {
            1int
        } else {
            0int
        },
{
    reveal_with_fuel(days_before_month, 14);
}

/// Month prefix sums are monotone in the month.
proof fn lemma_days_before_month_monotone(y: int, m1: int, m2: int)
    requires
        m1 <= m2,
    ensures
        days_before_month(y, m1) <= days_before_month(y, m2),
    decreases m2 - m1,
{
    if m1 < m2 {
        lemma_days_before_month_monotone(y, m1, m2 - 1);
    }
}

/// Bounds of `day_number` within a year: between the year's first and last day.
pub proof fn lemma_day_number_year_bounds(d: Date)
    requires
        date_valid(d),
    ensures
        365 * (d.year - 1) + leap_years_before(d.year as int) + 1 <= day_number(d) <= 365 * (
        d.year - 1) + leap_years_before(d.year as int) + 366,
{
    let y = d.year as int;
    let m = d.month as int;
    lemma_days_before_month_monotone(y, 1, m);
    assert(days_before_month(y, m) + d.day <= days_before_month(y, m + 1));
    lemma_days_before_month_monotone(y, m + 1, 13);
    lemma_days_in_year(y);
}

/// Distinct ordered dates have strictly ordered day numbers; in
/// particular `day_number` is injective on valid dates.
pub proof fn lemma_day_number_strict(a: Date, b: Date)
    requires
        date_valid(a),
        date_valid(b),
        spec_date_le(a, b),
        a != b,
    ensures
        day_number(a) < day_number(b),
{
    if a.year < b.year {
        let ya = a.year as int;
        let yb = b.year as int;
        lemma_days_before_month_monotone(ya, a.month as int + 1, 13);
        lemma_days_in_year(ya);
        assert(day_number(a) <= 365 * (ya - 1) + leap_years_before(ya) + 365 + if is_leap_year(
            ya,
        ) {
            1int
        } else {
            0int
        });
        lemma_leap_step(ya);
        lemma_leap_monotone(ya + 1, yb);
        lemma_days_before_month_monotone(yb, 1, b.month as int);
    } else if a.month < b.month {
        let y = a.year as int;
        assert(days_before_month(y, a.month as int) + a.day <= days_before_month(
            y,
            a.month as int + 1,
        ));
        lemma_days_before_month_monotone(y, a.month as int + 1, b.month as int);
    }
}

/// Lexicographic order on (year, month, day).
pub open spec fn spec_date_le(a: Date, b: Date) -> bool {
    ||| a.year < b.year
    ||| (a.year == b.year && a.month < b.month)
    ||| (a.year == b.year && a.month == b.month && a.day <= b.day)
}

pub fn date_le(a: &Date, b: &Date) -> (r: bool)
    ensures
        r == spec_date_le(*a, *b),
{
    a.year < b.year || (a.year == b.year && (a.month < b.month || (a.month == b.month && a.day
        <= b.day)))
}

pub fn leap_year_exec(y: u32) -> (r: bool)
    ensures
        r == is_leap_year(y as int),
{
    (y % 4 == 0 && y % 100 != 0) || y % 400 == 0
}

pub fn days_in_month_exec(y: u32, m: u8) -> (r: u8)
    ensures
        r == days_in_month(y as int, m as int),
{
    if m == 2 {
        if leap_year_exec(y) {
            29
        } else {
            28
        }
    } else if m == 4 || m == 6 || m == 9 || m == 11 {
        30
    } else {
        31
    }
}

/// The day number of the last representable date, 9999-12-31.
pub proof fn lemma_last_day_number()
    ensures
        day_number(Date { year: 9999, month: 12, day: 31 }) == 3652059,
{
    lemma_days_in_year(9999);
    reveal_with_fuel(days_before_month, 14);
}

pub fn day_number_exec(d: &Date) -> (n: u32)
    requires
        date_valid(*d),
    ensures
        n == day_number(*d),
{
    proof {
        vstd::arithmetic::div_mod::lemma_div_is_ordered_by_denominator(
            d.year as int - 1,
            4,
            100,
        );
        lemma_day_number_year_bounds(*d);
        assert(leap_years_before(d.year as int) <= (d.year as int - 1)) by {
            vstd::arithmetic::div_mod::lemma_div_is_ordered_by_denominator(
                d.year as int - 1,
                1,
                4,
            );
            vstd::arithmetic::div_mod::lemma_div_basics(d.year as int - 1);
        }
    }
    let y = d.year;
    let leaps: u32 = (y - 1) / 4 - (y - 1) / 100 + (y - 1) / 400;
    let mut before: u32 = 0;
    let mut m: u8 = 1;
    while m < d.month
        invariant
            1 <= m <= d.month,
            y == d.year,
            date_valid(*d),
            before == days_before_month(d.year as int, m as int),
            before <= 31 * (m - 1),
        decreases d.month - m,
    {
        let dim = days_in_month_exec(y, m);
        proof {
            assert(days_before_month(d.year as int, m as int + 1) == days_before_month(
                d.year as int,
                m as int,
            ) + days_in_month(d.year as int, m as int));
        }
        before = before + dim as u32;
        m = m + 1;
    }
    365 * (y - 1) + leaps + before + d.day as u32
}

/// The calendar date one day after `d`, as a value.
pub open spec fn spec_next_day(d: Date) -> Date {
    if d.day < days_in_month(d.year as int, d.month as int) {
        Date { year: d.year, month: d.month, day: (d.day + 1) as u8 }
    } else if d.month < 12 {
        Date { year: d.year, month: (d.month + 1) as u8, day: 1 }
    } else {
        Date { year: (d.year + 1) as u32, month: 1, day: 1 }
    }
}

/// Stepping one day forward stays valid and advances the day number by one.
pub proof fn lemma_next_day(d: Date)
    requires
        date_valid(d),
        !(d.year == 9999 && d.month == 12 && d.day == 31),
    ensures
        date_valid(spec_next_day(d)),
        day_number(spec_next_day(d)) == day_number(d) + 1,
{
    if d.day < days_in_month(d.year as int, d.month as int) {
    } else if d.month < 12 {
        assert(days_before_month(d.year as int, d.month as int + 1) == days_before_month(
            d.year as int,
            d.month as int,
        ) + days_in_month(d.year as int, d.month as int));
    } else {
        lemma_days_in_year(d.year as int);
        lemma_leap_step(d.year as int);
    }
}

/// `d` moved `n` days forward, one step at a time.
pub open spec fn date_plus(d: Date, n: int) -> Date
    decreases n,
{
    if n <= 0 {
        d
    } else {
        spec_next_day(date_plus(d, n - 1))
    }
}

/// The calendar date one day after `d`.
pub fn next_day(d: &Date) -> (r: Date)
    requires
        date_valid(*d),
        !(d.year == 9999 && d.month == 12 && d.day == 31),
    ensures
        r == spec_next_day(*d),
        date_valid(r),
        day_number(r) == day_number(*d) + 1,
{
    proof {
        lemma_next_day(*d);
    }
    let dim = days_in_month_exec(d.year, d.month);
    if d.day < dim {
        Date { year: d.year, month: d.month, day: d.day + 1 }
    } else if d.month < 12 {
        Date { year: d.year, month: d.month + 1, day: 1 }
    } else {
        Date { year: d.year + 1, month: 1, day: 1 }
    }
}

/// Stepping a bounded number of days from a non-final year stays valid and
/// advances the day number accordingly.
pub proof fn lemma_date_plus(d: Date, n: int)
    requires
        date_valid(d),
        d.year <= 9998,
        0 <= n <= 100,
    ensures
        date_valid(date_plus(d, n)),
        day_number(date_plus(d, n)) == day_number(d) + n,
    decreases n,
{
    if n > 0 {
        lemma_date_plus(d, n - 1);
        let c = date_plus(d, n - 1);
        lemma_day_number_year_bounds(d);
        lemma_leap_monotone(d.year as int, 9999);
        lemma_last_day_number();
        if c.year == 9999 && c.month == 12 && c.day == 31 {
            assert(day_number(c) == 3652059);
            assert(false);
        }
        lemma_next_day(c);
    }
}

/// `d` moved `n` days forward. The year bound keeps the result representable.
pub fn add_days(d: &Date, n: u32) -> (r: Date)
    requires
        date_valid(*d),
        d.year <= 9998,
        n <= 100,
    ensures
        r == date_plus(*d, n as int),
        date_valid(r),
        day_number(r) == day_number(*d) + n,
{
    let mut cur = *d;
    let mut i: u32 = 0;
    while i < n
        invariant
            i <= n,
            n <= 100,
            date_valid(*d),
            d.year <= 9998,
            cur == date_plus(*d, i as int),
            date_valid(cur),
        decreases n - i,
    {
        proof {
            lemma_date_plus(*d, i as int);
            lemma_date_plus(*d, i as int + 1);
            lemma_last_day_number();
            lemma_day_number_year_bounds(*d);
            lemma_leap_monotone(d.year as int, 9999);
            if cur.year == 9999 && cur.month == 12 && cur.day == 31 {
                assert(day_number(cur) == 3652059);
                assert(false);
            }
        }
        cur = next_day(&cur);
        i = i + 1;
    }
    proof {
        lemma_date_plus(*d, n as int);
    }
    cur
}

/// ISO weekday number of `d`: 1 = Monday .. 7 = Sunday.
pub fn weekday_number(d: &Date) -> (w: u8)
    requires
        date_valid(*d),
    ensures
        w == weekday(*d),
        1 <= w <= 7,
{
    proof {
        lemma_day_number_year_bounds(*d);
        vstd::arithmetic::div_mod::lemma_div_is_ordered_by_denominator(d.year as int - 1, 4, 100);
        vstd::arithmetic::div_mod::lemma_div_is_ordered(0, d.year as int - 1, 400);
        vstd::arithmetic::div_mod::lemma_div_of0(400);
    }
    let n = day_number_exec(d);
    ((n - 1) % 7 + 1) as u8
}

} // verus!
