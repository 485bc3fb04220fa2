//! Proleptic Gregorian calendar arithmetic: leap years, month lengths,
//! neighbouring days and day numbers counted from 1970-01-01.
use vstd::arithmetic::div_mod::*;
use vstd::prelude::*;

verus! {

/// Division rounding toward zero, as Rust's `/` on signed integers does.
pub open spec fn trunc_div(a: int, b: int) -> int {
    if a >= 0 {
        a / b
    } else {
        -((-a) / b)
    }
}

/// Leap years of the proleptic Gregorian calendar.
pub open spec fn leap_spec(year: int) -> bool {
    (year % 4 == 0 && year % 100 != 0) || year % 400 == 0
}

/// Number of days of `month` in `year`; months outside `1..=12` count 31 days.
pub open spec fn days_in_month_spec(year: int, month: int) -> int {
    if month == 2 {
        if leap_spec(year) {
            29
        } else {
            28
        }
    } else if month == 4 || month == 6 || month == 9 || month == 11 {
        30
    } else {
        31
    }
}

/// A calendar date with a month in `1..=12` and a day within that month.
pub open spec fn valid_date(year: int, month: int, day: int) -> bool {
    1 <= month <= 12 && 1 <= day <= days_in_month_spec(year, month)
}

/// Day of the year counted from March 1 (the year taken to start in March).
pub open spec fn day_of_shifted_year(month: int, day: int) -> int {
    trunc_div(153 * (month + if month > 2 { -3int } else { 9int }) + 2, 5) + day - 1
}

/// Days from 0000-03-01 to March 1 of the year after the shifted year `y`,
/// minus the days of that last year (i.e. to March 1 of `y`).
pub open spec fn shifted_year_start(y: int) -> int {
    let yoe = y % 400;
    146097 * (y / 400) + 365 * yoe + yoe / 4 - yoe / 100
}

/// Day number of a date relative to 1970-01-01 (Hinnant's `days_from_civil`),
/// for any month and day values.
pub open spec fn days_from_civil_spec(year: int, month: int, day: int) -> int {
    let y = if month <= 2 { year - 1 } else { year };
    shifted_year_start(y) + day_of_shifted_year(month, day) - 719468
}

/// The day after a date (with the month rolling over after its last day).
pub open spec fn next_day_spec(year: int, month: int, day: int) -> (int, int, int) {
    if day < days_in_month_spec(year, month) {
        (year, month, day + 1)
    } else if month < 12 {
        (year, month + 1, 1)
    } else {
        (year + 1, 1, 1)
    }
}

/// The day before a date.
pub open spec fn previous_day_spec(year: int, month: int, day: int) -> (int, int, int) {
    if day > 1 {
        (year, month, day - 1)
    } else if month > 1 {
        (year, month - 1, days_in_month_spec(year, month - 1))
    } else {
        (year - 1, 12, 31)
    }
}

/// Whether `year` is a leap year.
pub fn is_leap_year(year: i32) -> (r: bool)
    ensures
        r == leap_spec(year as int),
{
    (year % 4 == 0 && year % 100 != 0) || year % 400 == 0
}

/// Number of days in `month` of `year`; 31 for a month outside `1..=12`.
pub fn days_in_month(year: i32, month: i32) -> (r: i32)
    ensures
        r == days_in_month_spec(year as int, month as int),
{
    match month {
        1 | 3 | 5 | 7 | 8 | 10 | 12 => 31,
        4 | 6 | 9 | 11 => 30,
        2 if is_leap_year(year) => 29,
        2 => 28,
        _ => 31,
    }
}

/// The day after `(year, month, day)`.
pub fn next_day(year: i32, month: i32, day: i32) -> (r: (i32, i32, i32))
    requires
        day < days_in_month_spec(year as int, month as int) || month < 12 || year < i32::MAX,
    ensures
        (r.0 as int, r.1 as int, r.2 as int) == next_day_spec(year as int, month as int, day as int),
{
    let days = days_in_month(year, month);
    if day < days {
        (year, month, day + 1)
    } else if month < 12 {
        (year, month + 1, 1)
    } else {
        (year + 1, 1, 1)
    }
}

/// The day before `(year, month, day)`.
pub fn previous_day(year: i32, month: i32, day: i32) -> (r: (i32, i32, i32))
    requires
        day > 1 || month > 1 || year > i32::MIN,
    ensures
        (r.0 as int, r.1 as int, r.2 as int) == previous_day_spec(year as int, month as int, day as int),
{
    if day > 1 {
        (year, month, day - 1)
    } else if month > 1 {
        let previous_month = month - 1;
        (year, previous_month, days_in_month(year, previous_month))
    } else {
        (year - 1, 12, 31)
    }
}

/// Every step of `days_from_civil` on this date stays within `i64`: the
/// year shift, the era, the era's first day and the result.
pub open spec fn civil_days_fit(y: int, m: int, d: int) -> bool {
    let y2 = if m <= 2 { y - 1 } else { y };
    let era_start = 146097 * (y2 / 400);
    &&& i64::MIN <= y2
    &&& y2 < 0 ==> i64::MIN <= y2 - 399
    &&& i64::MIN <= era_start <= i64::MAX
    &&& i64::MIN <= days_from_civil_spec(y, m, d) + 719468 <= i64::MAX
    &&& i64::MIN <= days_from_civil_spec(y, m, d) <= i64::MAX
}

/// Days from 1970-01-01 to the given date of the proleptic Gregorian calendar.
pub fn days_from_civil(y: i64, m: i32, d: i32) -> (days: i64)
    requires
        civil_days_fit(y as int, m as int, d as int),
    ensures
        days == days_from_civil_spec(y as int, m as int, d as int),
{
    let y = if m <= 2 { y - 1 } else { y };
    let era = if y >= 0 { y } else { y - 399 } / 400;
    proof {
        lemma_fundamental_div_mod(y as int, 400);
        if y < 0 {
            let a = (399 - y) as int;
            lemma_fundamental_div_mod(a, 400);
            assert(era == -(a / 400));
            assert(y as int / 400 == -(a / 400)) by {
                let q = a / 400;
                let r = a % 400;
                assert(a == 400 * q + r && 0 <= r < 400);
                assert(y == 400 * (-q) + (399 - r));
                lemma_div_multiples_vanish_fancy(-q, 399 - r, 400);
            }
        }
    }
    let yoe = y - era * 400;
    let doy = (153 * (m as i64 + if m > 2 { -3 } else { 9 })
        + 2) / 5 + d as i64 - 1;
    let doe = yoe * 365 + yoe / 4 - yoe / 100 + doy;
    era * 146097 + doe - 719468
}

proof fn lemma_i32_dates_fit(y: int, m: int, d: int)
    requires
        i32::MIN <= y <= i32::MAX,
        i32::MIN <= m <= i32::MAX,
        i32::MIN <= d <= i32::MAX,
    ensures
        civil_days_fit(y, m, d),
{
    let y2 = if m <= 2 { y - 1 } else { y };
    lemma_fundamental_div_mod(y2, 400);
    let yoe = y2 % 400;
    lemma_fundamental_div_mod(yoe, 4);
    lemma_fundamental_div_mod(yoe, 100);
    let a = 153 * (m + if m > 2 { -3int } else { 9int }) + 2;
    if a >= 0 {
        lemma_fundamental_div_mod(a, 5);
    } else {
        lemma_fundamental_div_mod(-a, 5);
    }
}

/// Days from 1970-01-01 to a date with an `i32` year.
pub fn day_number(year: i32, month: i32, day: i32) -> (days: i64)
    ensures
        days == days_from_civil_spec(year as int, month as int, day as int),
{
    proof {
        lemma_i32_dates_fit(year as int, month as int, day as int);
    }
    days_from_civil(year as i64, month, day)
}

proof fn lemma_small_year_steps(r: u32)
    requires
        r < 399,
    ensures
        (r + 1) / 4 == r / 4 + (if (r + 1) % 4 == 0 { 1int } else { 0int }),
        (r + 1) / 100 == r / 100 + (if (r + 1) % 100 == 0 { 1int } else { 0int }),
        (r + 1) % 100 == 0 ==> (r + 1) % 4 == 0,
        (r + 1) % 400 != 0,
{
    assert((r + 1) / 4 == r / 4 + (if (r + 1) % 4 == 0 { 1u32 } else { 0u32 })) by (bit_vector)
        requires
            r < 399,
    ;
    assert((r + 1) / 100 == r / 100 + (if (r + 1) % 100 == 0 { 1u32 } else { 0u32 })) by (bit_vector)
        requires
            r < 399,
    ;
    assert((r + 1) % 100 == 0 ==> (r + 1) % 4 == 0) by (bit_vector)
        requires
            r < 399,
    ;
}

/// The shifted year `y` (March of `y` to February of `y + 1`) has 366 days
/// exactly when `y + 1` is a leap year.
proof fn lemma_shifted_year_length(y: int)
    ensures
        shifted_year_start(y + 1) - shifted_year_start(y) == 365 + (if leap_spec(y + 1) { 1int } else { 0int }),
{
    let q = y / 400;
    let r = y % 400;
    lemma_fundamental_div_mod(y, 400);
    assert(0 <= r < 400);
    let z = y + 1;
    if r < 399 {
        assert(z == 400 * q + (r + 1));
        lemma_div_multiples_vanish_fancy(q, r + 1, 400);
        lemma_mod_multiples_vanish(q, r + 1, 400);
        lemma_small_mod((r + 1) as nat, 400);
        assert(z / 400 == q && z % 400 == r + 1);
        lemma_small_year_steps(r as u32);
        assert(z == 4 * (100 * q) + (r + 1));
        lemma_mod_multiples_vanish(100 * q, r + 1, 4);
        assert(z == 100 * (4 * q) + (r + 1));
        lemma_mod_multiples_vanish(4 * q, r + 1, 100);
        assert(leap_spec(z) == ((r + 1) % 4 == 0 && (r + 1) % 100 != 0));
    } else {
        assert(z == 400 * (q + 1) + 0);
        lemma_div_multiples_vanish_fancy(q + 1, 0, 400);
        lemma_mod_multiples_vanish(q + 1, 0, 400);
        assert(z / 400 == q + 1 && z % 400 == 0);
        assert(leap_spec(z));
    }
}

/// Law: on a valid date, the next day is a valid date whose day number is one more.
pub proof fn lemma_next_day_succ(year: int, month: int, day: int)
    requires
        valid_date(year, month, day),
    ensures
        valid_date(next_day_spec(year, month, day).0, next_day_spec(year, month, day).1, next_day_spec(year, month, day).2),
        days_from_civil_spec(next_day_spec(year, month, day).0, next_day_spec(year, month, day).1, next_day_spec(year, month, day).2)
            == days_from_civil_spec(year, month, day) + 1,
{
    if day < days_in_month_spec(year, month) {
    } else if month == 2 {
        lemma_shifted_year_length(year - 1);
    }
}

/// Law: on a valid date, `previous_day` undoes `next_day` and `next_day` undoes
/// `previous_day`, and the day before is a valid date.
pub proof fn lemma_previous_next_inverse(year: int, month: int, day: int)
    requires
        valid_date(year, month, day),
    ensures
        previous_day_spec(next_day_spec(year, month, day).0, next_day_spec(year, month, day).1, next_day_spec(year, month, day).2)
            == (year, month, day),
        next_day_spec(previous_day_spec(year, month, day).0, previous_day_spec(year, month, day).1, previous_day_spec(year, month, day).2)
            == (year, month, day),
        valid_date(previous_day_spec(year, month, day).0, previous_day_spec(year, month, day).1, previous_day_spec(year, month, day).2),
{
}

/// Law: 1970-01-01 is day zero.
pub proof fn lemma_epoch_day()
    ensures
        days_from_civil_spec(1970, 1, 1) == 0,
{
    assert(1969int / 400 == 4 && 1969int % 400 == 369);
}

} // verus!
