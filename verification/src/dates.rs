//! Proleptic Gregorian day numbers, counted from 1970-01-01, and back
//! (Howard Hinnant's `days_from_civil` / `civil_from_days`).

use vstd::prelude::*;
use crate::sheet_name::{normalize, normalize_sheet_name};

verus! {

/// Integer division as Rust performs it: truncated toward zero.
pub open spec fn tdiv(a: int, b: int) -> int {
    if a >= 0 {
        a / b
    } else {
        -((-a) / b)
    }
}

/// The value fits in an `i64`.
pub open spec fn fits(x: int) -> bool {
    i64::MIN <= x <= i64::MAX
}

/// The day number of `year-month-day`, as the algorithm computes it for
/// any three integers.
pub open spec fn spec_days_from_civil(year: int, month: int, day: int) -> int {
    let y = if month <= 2 { year - 1 } else { year };
    let era = tdiv(if y >= 0 { y } else { y - 399 }, 400);
    let year_of_era = y - era * 400;
    let day_of_year = tdiv(153 * (if month > 2 { month - 3 } else { month + 9 }) + 2, 5) + day - 1;
    let day_of_era = year_of_era * 365 + tdiv(year_of_era, 4) - tdiv(year_of_era, 100) + day_of_year;
    era * 146097 + day_of_era - 719468
}

/// Every intermediate value of `days_from_civil` fits in an `i64`.
pub open spec fn days_from_civil_fits(year: int, month: int, day: int) -> bool {
    let y = if month <= 2 { year - 1 } else { year };
    let shifted = if y >= 0 { y } else { y - 399 };
    let era = tdiv(shifted, 400);
    let mp = if month > 2 { month - 3 } else { month + 9 };
    let partial = tdiv(153 * mp + 2, 5) + day;
    let year_of_era = y - era * 400;
    let day_of_era = year_of_era * 365 + tdiv(year_of_era, 4) - tdiv(year_of_era, 100) + partial - 1;
    &&& fits(y)
    &&& fits(shifted)
    &&& fits(mp)
    &&& fits(153 * mp + 2)
    &&& fits(partial)
    &&& fits(partial - 1)
    &&& fits(day_of_era)
    &&& fits(era * 146097)
    &&& fits(era * 146097 + day_of_era)
    &&& fits(era * 146097 + day_of_era - 719468)
}

/// Days from 1970-01-01 to `year-month-day` (months and days 1-based).
pub fn days_from_civil(year: i64, month: i64, day: i64) -> (res: i64)
    requires
        days_from_civil_fits(year as int, month as int, day as int),
    ensures
        res == spec_days_from_civil(year as int, month as int, day as int),
{
    let year = if month <= 2 { year - 1 } else { year };
    let era = (if year >= 0 { year } else { year - 399 }) / 400;
    let year_of_era = year - era * 400;
    proof {
        assert(0 <= year_of_era < 400);
    }
    let mp = if month > 2 { month - 3 } else { month + 9 };
    let day_of_year = (153 * mp + 2) / 5 + day - 1;
    let day_of_era = year_of_era * 365 + year_of_era / 4 - year_of_era / 100 + day_of_year;
    era * 146_097 + day_of_era - 719_468
}

/// The date of day number `days`, as `(year, month, day)`.
pub open spec fn spec_civil_from_days(days: int) -> (int, int, int) {
    let z = days + 719468;
    let era = tdiv(if z >= 0 { z } else { z - 146096 }, 146097);
    let day_of_era = z - era * 146097;
    let year_of_era = (day_of_era - day_of_era / 1460 + day_of_era / 36524 - day_of_era / 146096) / 365;
    let year = year_of_era + era * 400;
    let day_of_year = day_of_era - (365 * year_of_era + year_of_era / 4 - year_of_era / 100);
    let mp = (5 * day_of_year + 2) / 153;
    let day = day_of_year - (153 * mp + 2) / 5 + 1;
    let month = if mp < 10 { mp + 3 } else { mp - 9 };
    (if month <= 2 { year + 1 } else { year }, month, day)
}

proof fn lemma_era(z: int)
    ensures
        ({
            let era = tdiv(if z >= 0 { z } else { z - 146096 }, 146097);
            era == z / 146097 && 0 <= z - era * 146097 <= 146096
        }),
{
}

/// Within an era, the year and the day of the year found from the day of
/// the era are in range, and only the last day of a leap year is day 365.
#[verifier::rlimit(50)]
proof fn lemma_year_of_era(doe: int)
    requires
        0 <= doe <= 146096,
    ensures
        ({
            let yoe = (doe - doe / 1460 + doe / 36524 - doe / 146096) / 365;
            let doy = doe - (365 * yoe + yoe / 4 - yoe / 100);
            &&& 0 <= yoe <= 399
            &&& 0 <= doy <= 365
            &&& doy == 365 ==> (yoe + 1) % 4 == 0 && ((yoe + 1) % 100 != 0 || yoe == 399)
        }),
{
}

/// The day of the era names its year back.
#[verifier::rlimit(50)]
proof fn lemma_year_of_era_inverse(yoe: int, doy: int)
    requires
        0 <= yoe <= 399,
        0 <= doy <= 364 || (doy == 365 && (yoe + 1) % 4 == 0 && ((yoe + 1) % 100 != 0 || yoe == 399)),
    ensures
        ({
            let doe = 365 * yoe + yoe / 4 - yoe / 100 + doy;
            &&& 0 <= doe <= 146096
            &&& (doe - doe / 1460 + doe / 36524 - doe / 146096) / 365 == yoe
        }),
{
}

/// The day of the year names its month (counted from March) back.
#[verifier::rlimit(50)]
proof fn lemma_month_inverse(mp: int, d: int)
    requires
        0 <= mp <= 11,
        1 <= d,
        d <= (if mp == 11 { 29int } else if mp == 1 || mp == 3 || mp == 6 || mp == 8 { 30int } else { 31int }),
    ensures
        ({
            let doy = (153 * mp + 2) / 5 + d - 1;
            (5 * doy + 2) / 153 == mp
        }),
{
}

/// Days from 1970-01-01 to the date `(year, month, day)` that is `days`
/// days after it.
pub fn civil_from_days(days: i64) -> (res: (i64, i64, i64))
    requires
        days <= i64::MAX - 719_468,
    ensures
        (res.0 as int, res.1 as int, res.2 as int) == spec_civil_from_days(days as int),
{
    let z = days + 719_468;
    proof {
        lemma_era(z as int);
    }
    let era = (if z >= 0 { z } else { z - 146_096 }) / 146_097;
    let day_of_era = z - era * 146_097;
    proof {
        lemma_year_of_era(day_of_era as int);
    }
    let year_of_era = (day_of_era - day_of_era / 1460 + day_of_era / 36_524 - day_of_era / 146_096) / 365;
    let year = year_of_era + era * 400;
    let day_of_year = day_of_era - (365 * year_of_era + year_of_era / 4 - year_of_era / 100);
    let mp = (5 * day_of_year + 2) / 153;
    let day = day_of_year - (153 * mp + 2) / 5 + 1;
    let month = if mp < 10 { mp + 3 } else { mp - 9 };
    (if month <= 2 { year + 1 } else { year }, month, day)
}

/// Gregorian leap years.
pub open spec fn is_leap(y: int) -> bool {
    y % 4 == 0 && (y % 100 != 0 || y % 400 == 0)
}

/// Length of month `m` of year `y`.
pub open spec fn month_days(y: int, m: int) -> int {
    if m == 2 {
        if is_leap(y) {
            29
        } else {
            28
        }
    } else if m == 4 || m == 6 || m == 9 || m == 11 {
        30
    } else {
        31
    }
}

/// `year-month-day` is a date of the calendar.
pub open spec fn valid_date(year: int, month: int, day: int) -> bool {
    1 <= month <= 12 && 1 <= day <= month_days(year, month)
}

/// The month (counted from March) and the day of the month found from a
/// day of the year.
#[verifier::rlimit(50)]
proof fn lemma_month_of_day(doy: int)
    requires
        0 <= doy <= 365,
    ensures
        ({
            let mp = (5 * doy + 2) / 153;
            let d = doy - (153 * mp + 2) / 5 + 1;
            &&& 0 <= mp <= 11
            &&& 1 <= d
            &&& d <= (if mp == 11 { 29int } else if mp == 1 || mp == 3 || mp == 6 || mp == 8 { 30int } else { 31int })
            &&& (mp == 11 && d == 29) == (doy == 365)
        }),
{
}

/// Whole eras of 400 years leave leap years where they were.
proof fn lemma_leap_era(era: int, k: int)
    ensures
        is_leap(era * 400 + k) == is_leap(k),
{
    assert((era * 400 + k) % 4 == k % 4) by (nonlinear_arith);
    assert((era * 400 + k) % 100 == k % 100) by (nonlinear_arith);
    assert((era * 400 + k) % 400 == k % 400) by (nonlinear_arith);
}

/// Every day number names a valid date.
#[verifier::rlimit(50)]
pub proof fn law_civil_dates_are_valid(days: int)
    ensures
        ({
            let (y, m, d) = spec_civil_from_days(days);
            valid_date(y, m, d)
        }),
{
    let z = days + 719468;
    lemma_era(z);
    let era = z / 146097;
    let doe = z - era * 146097;
    lemma_year_of_era(doe);
    let yoe = (doe - doe / 1460 + doe / 36524 - doe / 146096) / 365;
    let doy = doe - (365 * yoe + yoe / 4 - yoe / 100);
    lemma_month_of_day(doy);
    lemma_leap_era(era, yoe + 1);
    assert(era * 400 + (yoe + 1) == yoe + era * 400 + 1);
}

/// Converting a day number to its date and back gives the day number.
#[verifier::rlimit(50)]
pub proof fn law_days_round_trip(days: int)
    ensures
        ({
            let (y, m, d) = spec_civil_from_days(days);
            spec_days_from_civil(y, m, d) == days
        }),
{
    let z = days + 719468;
    lemma_era(z);
    let era = z / 146097;
    let doe = z - era * 146097;
    lemma_year_of_era(doe);
    let yoe = (doe - doe / 1460 + doe / 36524 - doe / 146096) / 365;
    let doy = doe - (365 * yoe + yoe / 4 - yoe / 100);
    lemma_month_of_day(doy);
    let mp = (5 * doy + 2) / 153;
    let day = doy - (153 * mp + 2) / 5 + 1;
    let month = if mp < 10 { mp + 3 } else { mp - 9 };
    let year = yoe + era * 400;
    let (y2, m2, d2) = spec_civil_from_days(days);
    assert(m2 == month && d2 == day);
    assert(y2 == if month <= 2 { year + 1 } else { year });
    let back = if m2 <= 2 { y2 - 1 } else { y2 };
    assert(back == year);
    assert(year / 400 == era) by (nonlinear_arith)
        requires
            year == yoe + era * 400,
            0 <= yoe < 400,
    ;
    assert(tdiv(if back >= 0 { back } else { back - 399 }, 400) == era);
    assert((if m2 > 2 { m2 - 3 } else { m2 + 9 }) == mp);
    assert(tdiv(153 * mp + 2, 5) == (153 * mp + 2) / 5);
    assert(tdiv(yoe, 4) == yoe / 4 && tdiv(yoe, 100) == yoe / 100);
}

/// Converting a valid date to its day number and back gives the date.
#[verifier::rlimit(50)]
pub proof fn law_date_round_trip(year: int, month: int, day: int)
    requires
        valid_date(year, month, day),
    ensures
        spec_civil_from_days(spec_days_from_civil(year, month, day)) == (year, month, day),
{
    let y = if month <= 2 { year - 1 } else { year };
    let era = tdiv(if y >= 0 { y } else { y - 399 }, 400);
    assert(era == y / 400);
    let yoe = y - era * 400;
    assert(0 <= yoe <= 399);
    let mp = if month > 2 { month - 3 } else { month + 9 };
    lemma_month_inverse(mp, day);
    let doy = (153 * mp + 2) / 5 + day - 1;
    assert(tdiv(153 * mp + 2, 5) == (153 * mp + 2) / 5);
    assert(0 <= doy <= 365);
    if doy == 365 {
        assert(month == 2 && day == 29);
        lemma_leap_era(era, yoe + 1);
        assert(year == era * 400 + (yoe + 1));
    }
    lemma_year_of_era_inverse(yoe, doy);
    let doe = 365 * yoe + yoe / 4 - yoe / 100 + doy;
    assert(tdiv(yoe, 4) == yoe / 4 && tdiv(yoe, 100) == yoe / 100);
    let days = era * 146097 + doe - 719468;
    assert(spec_days_from_civil(year, month, day) == days);
    let z = days + 719468;
    lemma_era(z);
    assert(z / 146097 == era) by (nonlinear_arith)
        requires
            z == era * 146097 + doe,
            0 <= doe <= 146096,
    ;
    lemma_month_of_day(doy);
}

/// A sheet name as lookups compare it: trimmed and ASCII-lowercased.
pub fn normalize_sheet(value: &str) -> (res: String)
    ensures
        res@ == normalize(value@),
{
    normalize_sheet_name(value)
}

/// The day after a valid date.
pub open spec fn next_date(year: int, month: int, day: int) -> (int, int, int) {
    if day < month_days(year, month) {
        (year, month, day + 1)
    } else if month < 12 {
        (year, month + 1, 1)
    } else {
        (year + 1, 1, 1)
    }
}

/// The day number, less 719468, of the first of March of `yy + 1`'s year
/// counted from March: the part of `days_from_civil` that depends on the
/// year alone.
pub open spec fn march_start(yy: int) -> int {
    let era = tdiv(if yy >= 0 { yy } else { yy - 399 }, 400);
    let yoe = yy - era * 400;
    era * 146097 + yoe * 365 + tdiv(yoe, 4) - tdiv(yoe, 100)
}

/// A March-based year ends 366 days after it starts when the February it
/// holds is a leap one, else 365.
#[verifier::rlimit(50)]
proof fn lemma_march_step(y: int)
    ensures
        march_start(y) - march_start(y - 1) == if is_leap(y) { 366int } else { 365int },
{
    let e = y / 400;
    let r = y % 400;
    assert(y == e * 400 + r && 0 <= r < 400);
    assert(tdiv(if y >= 0 { y } else { y - 399 }, 400) == e);
    lemma_leap_era(e, r);
    if r > 0 {
        assert(tdiv(if y - 1 >= 0 { y - 1 } else { y - 1 - 399 }, 400) == e);
        assert(y - 1 - e * 400 == r - 1);
        assert(tdiv(r, 4) == r / 4 && tdiv(r - 1, 4) == (r - 1) / 4);
        assert(tdiv(r, 100) == r / 100 && tdiv(r - 1, 100) == (r - 1) / 100);
    } else {
        assert(tdiv(if y - 1 >= 0 { y - 1 } else { y - 1 - 399 }, 400) == e - 1);
        assert(y - 1 - (e - 1) * 400 == 399);
        assert(is_leap(y));
    }
}

/// Consecutive dates have consecutive day numbers.
#[verifier::rlimit(50)]
pub proof fn law_next_date_is_next_day(year: int, month: int, day: int)
    requires
        valid_date(year, month, day),
    ensures
        ({
            let (y2, m2, d2) = next_date(year, month, day);
            valid_date(y2, m2, d2) && spec_days_from_civil(y2, m2, d2) == spec_days_from_civil(year, month, day) + 1
        }),
{
    let (y2, m2, d2) = next_date(year, month, day);
    if month == 2 && day == month_days(year, month) {
        lemma_march_step(year);
        assert(tdiv((153 * 11 + 2) as int, 5) == 337);
        assert(tdiv((153 * 0 + 2) as int, 5) == 0);
        assert(spec_days_from_civil(year, 2, day) == march_start(year - 1) + 337 + day - 1 - 719468);
        assert(spec_days_from_civil(year, 3, 1) == march_start(year) + 0 - 719468);
    } else if day == month_days(year, month) && month < 12 {
        let yy = if month <= 2 { year - 1 } else { year };
        let mp = if month > 2 { month - 3 } else { month + 9 };
        assert(spec_days_from_civil(year, month, day) == march_start(yy) + tdiv(153 * mp + 2, 5) + day - 1 - 719468);
        assert(spec_days_from_civil(year, month + 1, 1) == march_start(yy) + tdiv(153 * (mp + 1) + 2, 5) + 1 - 1 - 719468);
        assert(tdiv(153 * (mp + 1) + 2, 5) - tdiv(153 * mp + 2, 5) == month_days(year, month)) by {
            assert(0 <= mp <= 10);
            if mp == 0 {} else if mp == 1 {} else if mp == 2 {} else if mp == 3 {} else if mp == 4 {}
            else if mp == 5 {} else if mp == 6 {} else if mp == 7 {} else if mp == 8 {} else if mp == 9 {} else {}
        }
    } else if day == month_days(year, month) {
        assert(month == 12 && day == 31);
        assert(spec_days_from_civil(year, 12, 31) == march_start(year) + tdiv((153 * 9 + 2) as int, 5) + 31 - 1 - 719468);
        assert(spec_days_from_civil(year + 1, 1, 1) == march_start(year) + tdiv((153 * 10 + 2) as int, 5) + 1 - 1 - 719468);
    } else {
        assert(d2 == day + 1);
    }
}

} // verus!
