//! Proleptic-Gregorian calendar arithmetic.
//!
//! Dates and epoch days are related by [`epoch_day`], which counts days the
//! way a calendar is read: whole years, then whole months, then days. The
//! conversions shift the year to start on 1 March, so that a leap day is the
//! last day of the shifted year.
use vstd::prelude::*;

verus! {

/// Whether `y` has a 29 February.
pub open spec fn leap(y: int) -> bool {
    y % 4 == 0 && (y % 100 != 0 || y % 400 == 0)
}

/// Days in month `m` of year `y`.
pub open spec fn month_days(y: int, m: int) -> int {
    if m == 2 {
        if leap(y) {
            29
        } else {
            28
        }
    } else if m == 4 || m == 6 || m == 9 || m == 11 {
        30
    } else {
        31
    }
}

/// Days from 1 January of year `y` to the first of month `m`.
pub open spec fn days_before_month(y: int, m: int) -> int
    decreases m,
{
    if m <= 1 {
        0
    } else {
        days_before_month(y, m - 1) + month_days(y, m - 1)
    }
}

/// Days from 1 January of year 1 to 1 January of year `y`.
#[verifier::opaque]
pub open spec fn days_before_year(y: int) -> int {
    365 * (y - 1) + (y - 1) / 4 - (y - 1) / 100 + (y - 1) / 400
}

/// Days from 1 January 1970 to day `d` of month `m` of year `y`.
pub open spec fn epoch_day(y: int, m: int, d: int) -> int {
    days_before_year(y) + days_before_month(y, m) + d - 1 - 719162
}

/// Whether the three numbers name a day.
pub open spec fn valid_date(y: int, m: int, d: int) -> bool {
    1 <= m <= 12 && 1 <= d <= month_days(y, m)
}

/// Whether the year of an epoch day fits.
#[verifier::opaque]
pub open spec fn has_date(day: int) -> bool {
    epoch_day(i32::MIN as int, 1, 1) <= day <= epoch_day(i32::MAX as int, 12, 31)
}

/// Day of the week of an epoch day, Sunday first: the epoch was a Thursday.
pub open spec fn weekday(day: int) -> int {
    (day + 4) % 7
}

/// Day of the week of an epoch day, Monday as 1 and Sunday as 7.
pub open spec fn iso_weekday(day: int) -> int {
    (day + 3) % 7 + 1
}

/// The Thursday of the Monday-to-Sunday week that an epoch day lies in.
pub open spec fn week_thursday(day: int) -> int {
    day + 4 - iso_weekday(day)
}

/// The year and week that ISO 8601 counts an epoch day in: those of the
/// Thursday of its week, `n` being the number of Thursdays of that year so far.
pub open spec fn is_iso_week(day: int, y: int, n: int) -> bool {
    let t = week_thursday(day);
    &&& epoch_day(y, 1, 1) <= t < epoch_day(y + 1, 1, 1)
    &&& n == (t - epoch_day(y, 1, 1)) / 7 + 1
}

/// Epoch milliseconds of calendar components, any of which may exceed its
/// range: months carry into years, everything else into days.
pub open spec fn epoch_ms(y: int, m: int, d: int, h: int, mi: int, s: int, ms: int) -> int {
    let day = epoch_day(y + (m - 1) / 12, (m - 1) % 12 + 1, 1) + d - 1;
    day * 86_400_000 + h * 3_600_000 + mi * 60_000 + s * 1000 + ms
}

proof fn lemma_months(y: int)
    ensures
        days_before_month(y, 1) == 0,
        days_before_month(y, 2) == 31,
        days_before_month(y, 3) == 59 + leap_days(y),
        days_before_month(y, 4) == 90 + leap_days(y),
        days_before_month(y, 5) == 120 + leap_days(y),
        days_before_month(y, 6) == 151 + leap_days(y),
        days_before_month(y, 7) == 181 + leap_days(y),
        days_before_month(y, 8) == 212 + leap_days(y),
        days_before_month(y, 9) == 243 + leap_days(y),
        days_before_month(y, 10) == 273 + leap_days(y),
        days_before_month(y, 11) == 304 + leap_days(y),
        days_before_month(y, 12) == 334 + leap_days(y),
        days_before_month(y, 13) == 365 + leap_days(y),
{
    reveal_with_fuel(days_before_month, 14);
}

spec fn leap_days(y: int) -> int {
    if leap(y) {
        1
    } else {
        0
    }
}

/// A year is as long as its months together.
pub proof fn lemma_year_length(y: int)
    ensures
        days_before_year(y + 1) == days_before_year(y) + days_before_month(y, 13),
{
    lemma_months(y);
    reveal(days_before_year);
    assert(y / 4 - (y - 1) / 4 == (if y % 4 == 0 {
        1int
    } else {
        0
    }));
    assert(y / 100 - (y - 1) / 100 == (if y % 100 == 0 {
        1int
    } else {
        0
    }));
    assert(y / 400 - (y - 1) / 400 == (if y % 400 == 0 {
        1int
    } else {
        0
    }));
    assert(y % 100 == 0 ==> y % 4 == 0);
    assert(y % 400 == 0 ==> y % 100 == 0);
}

/// A year is at least 365 days, so later years start later.
pub proof fn lemma_years_ordered(a: int, b: int)
    requires
        a <= b,
    ensures
        days_before_year(b) - days_before_year(a) >= 365 * (b - a),
    decreases b - a,
{
    if a < b {
        lemma_years_ordered(a, b - 1);
        lemma_year_length(b - 1);
        lemma_months(b - 1);
    }
}

proof fn lemma_month_bounds(y: int, m: int)
    requires
        1 <= m <= 12,
    ensures
        0 <= days_before_month(y, m),
        days_before_month(y, m) + month_days(y, m) == days_before_month(y, m + 1),
        days_before_month(y, m + 1) <= 365 + leap_days(y),
{
    lemma_months(y);
    reveal_with_fuel(days_before_month, 2);
}

/// Two dates that fall on the same epoch day are the same date.
pub proof fn law_epoch_day_injective(y1: int, m1: int, d1: int, y2: int, m2: int, d2: int)
    requires
        valid_date(y1, m1, d1),
        valid_date(y2, m2, d2),
        epoch_day(y1, m1, d1) == epoch_day(y2, m2, d2),
    ensures
        y1 == y2,
        m1 == m2,
        d1 == d2,
{
    lemma_month_bounds(y1, m1);
    lemma_month_bounds(y2, m2);
    lemma_months(y1);
    lemma_months(y2);
    lemma_year_length(y1);
    lemma_year_length(y2);
    if y1 < y2 {
        lemma_years_ordered(y1 + 1, y2);
    } else if y2 < y1 {
        lemma_years_ordered(y2 + 1, y1);
    }
    if m1 < m2 {
        lemma_months_ordered(y1, m1 + 1, m2);
    } else if m2 < m1 {
        lemma_months_ordered(y1, m2 + 1, m1);
    }
}

proof fn lemma_months_ordered(y: int, a: int, b: int)
    requires
        1 <= a <= b <= 13,
    ensures
        days_before_month(y, a) <= days_before_month(y, b),
    decreases b - a,
{
    if a < b {
        lemma_months_ordered(y, a, b - 1);
        lemma_month_bounds(y, b - 1);
    }
}

/// Floor division by a positive divisor.
pub fn floor_div(a: i64, b: i64) -> (r: i64)
    requires
        b > 0,
    ensures
        r == a as int / b as int,
        a >= 0 ==> 0 <= r <= a,
        a < 0 ==> a <= r < 0,
{
    if a >= 0 {
        proof {
            vstd::arithmetic::div_mod::lemma_div_nonincreasing(a as int, b as int);
            vstd::arithmetic::div_mod::lemma_div_pos_is_pos(a as int, b as int);
        }
        a / b
    } else {
        let p: i64 = -(a + 1);
        let q: i64 = p / b;
        proof {
            let x = p as int;
            let d = b as int;
            vstd::arithmetic::div_mod::lemma_fundamental_div_mod(x, d);
            vstd::arithmetic::div_mod::lemma_mod_bound(x, d);
            vstd::arithmetic::div_mod::lemma_div_nonincreasing(x, d);
            vstd::arithmetic::div_mod::lemma_div_pos_is_pos(x, d);
            let r = d - 1 - x % d;
            assert(a as int == d * (-(x / d) - 1) + r) by (nonlinear_arith)
                requires
                    a as int == -x - 1,
                    x == d * (x / d) + x % d,
                    r == d - 1 - x % d,
            ;
            vstd::arithmetic::div_mod::lemma_fundamental_div_mod_converse(a as int, d, -(x / d) - 1, r);
        }
        -q - 1
    }
}

/// Remainder of floor division by a positive divisor.
pub fn floor_mod(a: i64, b: i64) -> (r: i64)
    requires
        b > 0,
    ensures
        r == a as int % b as int,
        0 <= r < b,
{
    proof {
        vstd::arithmetic::div_mod::lemma_mod_bound(a as int, b as int);
    }
    if a >= 0 {
        a % b
    } else {
        let p: i64 = -(a + 1);
        let m: i64 = p % b;
        proof {
            let x = p as int;
            let d = b as int;
            vstd::arithmetic::div_mod::lemma_fundamental_div_mod(x, d);
            vstd::arithmetic::div_mod::lemma_mod_bound(x, d);
            let r = d - 1 - x % d;
            assert(a as int == d * (-(x / d) - 1) + r) by (nonlinear_arith)
                requires
                    a as int == -x - 1,
                    x == d * (x / d) + x % d,
                    r == d - 1 - x % d,
            ;
            vstd::arithmetic::div_mod::lemma_fundamental_div_mod_converse(a as int, d, -(x / d) - 1, r);
        }
        b - 1 - m
    }
}

/// The first day of a year, seen from a 400-year era and the year within it,
/// counting years from March.
#[verifier::spinoff_prover]
proof fn lemma_era_year(era: int, yoe: int)
    requires
        0 <= yoe < 400,
    ensures
        ({
            let y = era * 400 + yoe;
            days_before_year(y + 1) == era * 146_097 + yoe * 365 + yoe / 4 - yoe / 100
        }),
{
    let y = era * 400 + yoe;
    assert(y / 4 == era * 100 + yoe / 4);
    assert(y / 100 == era * 4 + yoe / 100);
    assert(y / 400 == era);
    assert(days_before_year(y + 1) == 365 * y + y / 4 - y / 100 + y / 400) by {
        reveal(days_before_year);
    }
}

/// Days from 1 March to the first of a month, for months counted from March.
proof fn lemma_march_months(y: int, m: int)
    requires
        1 <= m <= 12,
    ensures
        m > 2 ==> days_before_month(y, m) == 59 + leap_days(y) + (153 * (m - 3) + 2) / 5,
        m <= 2 ==> days_before_month(y, m) == (153 * (m + 9) + 2) / 5 - 306,
{
    lemma_months(y);
}

/// Days since the Unix epoch of a date.
pub fn ymd_to_epoch_days(y: i32, m: u8, d: u8) -> (r: i64)
    requires
        1 <= m <= 12,
        1 <= d,
    ensures
        r == epoch_day(y as int, m as int, d as int),
        valid_date(y as int, m as int, d as int) ==> has_date(r as int),
        -900_000_000_000 <= r <= 900_000_000_000,
{
    let yy: i64 = if m <= 2 {
        y as i64 - 1
    } else {
        y as i64
    };
    let era: i64 = floor_div(yy, 400);
    let yoe: i64 = yy - era * 400;
    let mp: i64 = if m > 2 {
        m as i64 - 3
    } else {
        m as i64 + 9
    };
    let doy: i64 = (153 * mp + 2) / 5 + d as i64 - 1;
    let doe: i64 = yoe * 365 + yoe / 4 - yoe / 100 + doy;
    proof {
        lemma_march_months(y as int, m as int);
        lemma_era_year(era as int, yoe as int);
        lemma_year_length(yy as int);
        lemma_months(yy as int);
        if m > 2 {
            // The year has begun on 1 January before the shifted one.
            assert(days_before_year(y as int) == days_before_year(yy + 1) - 365 - leap_days(y as int));
        }
        if valid_date(y as int, m as int, d as int) {
            law_dates_have_days(y as int, m as int, d as int);
        }
    }
    era * 146_097 + doe - 719_468
}

/// The year of an era that a day of the era falls in.
proof fn lemma_year_of_era(doe: int)
    requires
        0 <= doe <= 146_096,
    ensures
        ({
            let yoe = (doe - doe / 1460 + doe / 36_524 - doe / 146_096) / 365;
            &&& 0 <= yoe < 400
            &&& 365 * yoe + yoe / 4 - yoe / 100 <= doe
            &&& doe <= 365 * yoe + yoe / 4 - yoe / 100 + 365
            &&& doe == 365 * yoe + yoe / 4 - yoe / 100 + 365 ==> leap(yoe + 1)
        }),
{
    // One century at a time, then one four-year cycle at a time.
    let c = if doe == 146_096 {
        3
    } else {
        doe / 36_524
    };
    let w = doe - c * 36_524;
    assert(0 <= c < 4 && 0 <= w <= 36_524);
    let f = if w >= 1461 * 25 {
        24int
    } else {
        w / 1461
    };
    let v = w - f * 1461;
    assert(0 <= f < 25 && 0 <= v <= 1461);
    let k = if v >= 1460 {
        3int
    } else {
        v / 365
    };
    assert(0 <= k < 4);
    let yoe = (doe - doe / 1460 + doe / 36_524 - doe / 146_096) / 365;
    assert(yoe == 100 * c + 4 * f + k) by {
        lemma_year_of_era_value(doe, c, f, k, v);
    }
    assert(yoe / 100 == c);
    assert(yoe / 4 == 25 * c + f);
    assert(365 * yoe + yoe / 4 - yoe / 100 == 36_524 * c + 1461 * f + 365 * k);
}

proof fn lemma_year_of_era_value(doe: int, c: int, f: int, k: int, v: int)
    requires
        0 <= c < 4,
        0 <= f < 25,
        0 <= k < 4,
        doe == 36_524 * c + 1461 * f + v,
        365 * k <= v,
        v < 365 * (k + 1) || (k == 3 && v == 1460),
        v == 1460 ==> f < 24 || c == 3,
    ensures
        (doe - doe / 1460 + doe / 36_524 - doe / 146_096) / 365 == 100 * c + 4 * f + k,
{
}

proof fn lemma_era_bound(z: int, era: int)
    requires
        era == z / 146_097,
        -785_000_000_000 <= z <= 785_000_000_000,
    ensures
        -5_400_000 <= era <= 5_400_000,
        -121_000_000_000 <= z <= 121_000_000_000 ==> -900_000 <= era <= 900_000,
        0 <= z - era * 146_097 < 146_097,
{
}

/// The year of an era that a day of the era falls in, and the day of that year.
fn year_of_era(doe: i64) -> (r: (i64, i64))
    requires
        0 <= doe <= 146_096,
    ensures
        0 <= r.0 < 400,
        0 <= r.1 <= 365,
        r.1 == 365 ==> leap(r.0 + 1),
        doe == r.0 * 365 + r.0 as int / 4 - r.0 as int / 100 + r.1,
{
    let yoe: i64 = (doe - doe / 1460 + doe / 36_524 - doe / 146_096) / 365;
    proof {
        lemma_year_of_era(doe as int);
    }
    (yoe, doe - (365 * yoe + yoe / 4 - yoe / 100))
}

/// The month, counted from March, and the day of the month of a day of the year.
fn march_month(doy: i64) -> (r: (i64, i64))
    requires
        0 <= doy <= 365,
    ensures
        r.0 == (5 * doy + 2) / 153,
        r.1 == doy - (153 * r.0 + 2) / 5 + 1,
        0 <= r.0 <= 11,
        1 <= r.1 <= 31,
{
    let mp: i64 = (5 * doy + 2) / 153;
    let d: i64 = doy - (153 * mp + 2) / 5 + 1;
    proof {
        lemma_day_of_march_year(doy as int, mp as int, d as int);
    }
    (mp, d)
}

/// The date of a day since the Unix epoch, whose year may be any.
#[verifier::spinoff_prover]
#[verifier::rlimit(40)]
fn civil_date(days: i64) -> (r: (i64, i64, i64))
    requires
        -784_400_000_000 <= days <= 784_400_000_000,
    ensures
        valid_date(r.0 as int, r.1 as int, r.2 as int),
        epoch_day(r.0 as int, r.1 as int, r.2 as int) == days,
        -120_000_000_000 <= days <= 120_000_000_000 ==> -400_000_000 <= r.0 <= 400_000_000,
{
    let z: i64 = days + 719_468;
    let era: i64 = floor_div(z, 146_097);
    proof {
        lemma_era_bound(z as int, era as int);
    }
    let doe: i64 = z - era * 146_097;
    let (yoe, doy) = year_of_era(doe);
    let y: i64 = yoe + era * 400;
    let (mp, d) = march_month(doy);
    let m: i64 = if mp < 10 {
        mp + 3
    } else {
        mp - 9
    };
    let yy: i64 = if m <= 2 {
        y + 1
    } else {
        y
    };
    proof {
        lemma_era_year(era as int, yoe as int);
        assert(leap(yoe + 1) == leap(y + 1)) by {
            assert((y + 1) % 4 == (yoe + 1) % 4);
            assert((y + 1) % 100 == (yoe + 1) % 100);
            assert((y + 1) % 400 == (yoe + 1) % 400);
        }
        lemma_march_date(y as int, doy as int, mp as int);
    }
    (yy, m, d)
}

/// The date of a day since the Unix epoch.
pub fn days_to_ymd(days: i64) -> (r: (i32, u8, u8))
    requires
        has_date(days as int),
    ensures
        valid_date(r.0 as int, r.1 as int, r.2 as int),
        epoch_day(r.0 as int, r.1 as int, r.2 as int) == days,
        forall|y: int, m: int, d: int|
            valid_date(y, m, d) && #[trigger] epoch_day(y, m, d) == days ==> r.0 == y && r.1 == m && r.2 == d,
        -120_000_000_000 <= days <= 120_000_000_000 ==> -400_000_000 <= r.0 <= 400_000_000,
{
    proof {
        lemma_has_date(days as int);
    }
    let (y, m, d) = civil_date(days);
    proof {
        lemma_year_fits(y as int, m as int, d as int);
        assert forall|y2: int, m2: int, d2: int|
            valid_date(y2, m2, d2) && #[trigger] epoch_day(y2, m2, d2) == days implies y == y2 && m == m2 && d == d2 by {
            law_epoch_day_injective(y as int, m as int, d as int, y2, m2, d2);
        }
    }
    (y as i32, m as u8, d as u8)
}

/// The first and the last day whose year fits.
pub proof fn lemma_has_date(day: int)
    ensures
        has_date(day) == (-784_353_015_833 <= day <= 784_351_576_776),
{
    reveal(has_date);
    reveal(days_before_year);
    lemma_months(i32::MIN as int);
    lemma_months(i32::MAX as int);
}

/// A day between the first and the last one is in a year between theirs.
proof fn lemma_year_fits(y: int, m: int, d: int)
    requires
        valid_date(y, m, d),
        has_date(epoch_day(y, m, d)),
    ensures
        i32::MIN <= y <= i32::MAX,
{
    reveal(has_date);
    let (first, last) = (i32::MIN as int, i32::MAX as int);
    lemma_month_bounds(y, m);
    lemma_months(y);
    lemma_year_length(y);
    lemma_year_length(last);
    lemma_months(last);
    lemma_months(first);
    if y < first {
        lemma_years_ordered(y + 1, first);
    }
    if y > last {
        lemma_years_ordered(last + 1, y);
    }
}

/// The day of every date whose year fits lies between the first and the last.
pub proof fn law_dates_have_days(y: int, m: int, d: int)
    requires
        valid_date(y, m, d),
        i32::MIN <= y <= i32::MAX,
    ensures
        has_date(epoch_day(y, m, d)),
{
    reveal(has_date);
    let (first, last) = (i32::MIN as int, i32::MAX as int);
    lemma_month_bounds(y, m);
    lemma_months(y);
    lemma_months(first);
    lemma_months(last);
    lemma_year_length(y);
    lemma_year_length(last);
    lemma_years_ordered(first, y);
    lemma_years_ordered(y + 1, last + 1);
}

/// The Thursday of a date has a date where the year is not one of the last.
pub proof fn lemma_thursday_has_date(y: int, m: int, d: int)
    requires
        valid_date(y, m, d),
        i32::MIN < y < i32::MAX,
    ensures
        has_date(week_thursday(epoch_day(y, m, d))),
{
    reveal(has_date);
    let (first, last) = (i32::MIN as int, i32::MAX as int);
    lemma_month_bounds(y, m);
    lemma_months(y);
    lemma_months(first);
    lemma_months(last);
    lemma_year_length(y);
    lemma_year_length(first);
    lemma_year_length(last);
    lemma_years_ordered(first + 1, y);
    lemma_years_ordered(y + 1, last);
}

/// The date after a date.
pub open spec fn next_date(y: int, m: int, d: int) -> (int, int, int) {
    if d < month_days(y, m) {
        (y, m, d + 1)
    } else if m < 12 {
        (y, m + 1, 1)
    } else {
        (y + 1, 1, 1)
    }
}

/// Days are counted one by one from the first of 1970.
pub proof fn law_days_are_counted(y: int, m: int, d: int)
    requires
        valid_date(y, m, d),
    ensures
        epoch_day(1970, 1, 1) == 0,
        ({
            let (y2, m2, d2) = next_date(y, m, d);
            valid_date(y2, m2, d2) && epoch_day(y2, m2, d2) == epoch_day(y, m, d) + 1
        }),
{
    assert(epoch_day(1970, 1, 1) == 0) by {
        reveal(days_before_year);
        lemma_months(1970);
    }
    lemma_month_bounds(y, m);
    lemma_months(y);
    lemma_months(y + 1);
    lemma_year_length(y);
}

/// The calendar date of a day of a year counted from March.
proof fn lemma_march_date(y: int, doy: int, mp: int)
    requires
        0 <= doy <= 365,
        doy == 365 ==> leap(y + 1),
        mp == (5 * doy + 2) / 153,
    ensures
        ({
            let d = doy - (153 * mp + 2) / 5 + 1;
            let m = if mp < 10 {
                mp + 3
            } else {
                mp - 9
            };
            let yy = if m <= 2 {
                y + 1
            } else {
                y
            };
            &&& valid_date(yy, m, d)
            &&& epoch_day(yy, m, d) == days_before_year(y + 1) + doy - 719_468
        }),
{
    let d = doy - (153 * mp + 2) / 5 + 1;
    let m = if mp < 10 {
        mp + 3
    } else {
        mp - 9
    };
    let yy = if m <= 2 {
        y + 1
    } else {
        y
    };
    lemma_day_of_march_year(doy, mp, d);
    lemma_march_months(yy, m);
    lemma_year_length(y);
    lemma_months(y);
}

/// The month and day within a year counted from March.
proof fn lemma_day_of_march_year(doy: int, mp: int, d: int)
    requires
        0 <= doy <= 365,
        mp == (5 * doy + 2) / 153,
        d == doy - (153 * mp + 2) / 5 + 1,
    ensures
        0 <= mp <= 11,
        1 <= d <= 31,
        (mp == 1 || mp == 3 || mp == 6 || mp == 8) ==> d <= 30,
        mp == 11 ==> d <= 29,
        mp == 11 && d == 29 ==> doy == 365,
{
}

pub fn is_leap_year(y: i32) -> (r: bool)
    ensures
        r == leap(y as int),
{
    let z: i64 = y as i64;
    floor_mod(z, 4) == 0 && (floor_mod(z, 100) != 0 || floor_mod(z, 400) == 0)
}

/// Days in a month of a year.
fn days_in_month(y: i32, m: u8) -> (r: u32)
    requires
        1 <= m <= 12,
    ensures
        r == month_days(y as int, m as int),
{
    if m == 2 {
        if is_leap_year(y) {
            29
        } else {
            28
        }
    } else if m == 4 || m == 6 || m == 9 || m == 11 {
        30
    } else {
        31
    }
}

/// Day of the year, 1 January being 1.
pub fn day_of_year(y: i32, mo: u8, d: u8) -> (r: u32)
    requires
        1 <= mo <= 12,
    ensures
        r == days_before_month(y as int, mo as int) + d,
        r <= 366 + 255,
{
    let mut doy: u32 = d as u32;
    let mut m: u8 = 1;
    while m < mo
        invariant
            1 <= m <= mo <= 12,
            doy == days_before_month(y as int, m as int) + d,
            doy <= 31 * (m as int - 1) + d as int,
        decreases mo - m,
    {
        doy = doy + days_in_month(y, m);
        m = m + 1;
    }
    proof {
        lemma_month_bounds(y as int, mo as int);
        lemma_months(y as int);
    }
    doy
}

/// Day of the week: 0 is Sunday, 6 is Saturday.
pub fn day_of_week(y: i32, m: u8, d: u8) -> (r: u8)
    requires
        1 <= m <= 12,
        1 <= d,
    ensures
        r == weekday(epoch_day(y as int, m as int, d as int)),
        r < 7,
{
    floor_mod(ymd_to_epoch_days(y, m, d) + 4, 7) as u8
}

/// Whether a year has 53 ISO weeks: it has that many Thursdays.
pub open spec fn long_iso_year(y: int) -> bool {
    weekday(epoch_day(y, 1, 1)) == 4 || weekday(epoch_day(y, 12, 31)) == 4
}

/// Number of ISO weeks in a year, 52 or 53.
pub fn iso_weeks_in_year(y: i32) -> (r: u32)
    ensures
        r == (if long_iso_year(y as int) {
            53int
        } else {
            52
        }),
{
    let jan1: u8 = day_of_week(y, 1, 1);
    let dec31: u8 = day_of_week(y, 12, 31);
    if jan1 == 4 || dec31 == 4 {
        53
    } else {
        52
    }
}

/// The ISO year and week of a date.
pub fn iso_week(y: i32, m: u8, d: u8) -> (r: (i32, u32))
    requires
        valid_date(y as int, m as int, d as int),
        has_date(week_thursday(epoch_day(y as int, m as int, d as int))),
    ensures
        is_iso_week(epoch_day(y as int, m as int, d as int), r.0 as int, r.1 as int),
        1 <= r.1 <= 53,
{
    let doy: i32 = day_of_year(y, m, d) as i32;
    let dow: i32 = day_of_week(y, m, d) as i32;
    let iso: i32 = (dow + 6) % 7 + 1;
    let week: i32 = (doy - iso + 10) / 7;
    proof {
        lemma_iso_week(y as int, m as int, d as int);
        lemma_month_bounds(y as int, m as int);
        lemma_months(y as int);
    }
    proof {
        lemma_week_year_fits(y as int, epoch_day(y as int, m as int, d as int));
    }
    if week < 1 {
        let prev: i32 = y - 1;
        return (prev, iso_weeks_in_year(prev));
    }
    let most: u32 = iso_weeks_in_year(y);
    if week > most as i32 {
        return (y + 1, 1);
    }
    (y, week as u32)
}

proof fn lemma_week_year_fits(y: int, day: int)
    requires
        has_date(week_thursday(day)),
    ensures
        y == i32::MIN ==> week_thursday(day) >= epoch_day(y, 1, 1),
        y == i32::MAX ==> week_thursday(day) < epoch_day(y + 1, 1, 1),
{
    reveal(has_date);
    let last = i32::MAX as int;
    lemma_months(last);
    lemma_months(last + 1);
    lemma_year_length(last);
}

/// Counting weeks by day of the year agrees with counting Thursdays.
#[verifier::spinoff_prover]
#[verifier::rlimit(40)]
proof fn lemma_iso_week(y: int, m: int, d: int)
    requires
        valid_date(y, m, d),
    ensures
        ({
            let day = epoch_day(y, m, d);
            let doy = days_before_month(y, m) + d;
            let week = (doy - iso_weekday(day) + 10) / 7;
            &&& doy - iso_weekday(day) + 10 >= 0
            &&& iso_weekday(day) == (weekday(day) + 6) % 7 + 1
            &&& week < 1 ==> is_iso_week(day, y - 1, if long_iso_year(y - 1) {
                53
            } else {
                52
            })
            &&& week >= 1 && week <= (if long_iso_year(y) {
                53int
            } else {
                52
            }) ==> is_iso_week(day, y, week)
            &&& week > (if long_iso_year(y) {
                53int
            } else {
                52
            }) ==> is_iso_week(day, y + 1, 1)
        }),
{
    let day = epoch_day(y, m, d);
    let doy = days_before_month(y, m) + d;
    lemma_month_bounds(y, m);
    lemma_months(y);
    lemma_months(y - 1);
    lemma_months(y + 1);
    lemma_year_length(y);
    lemma_year_length(y - 1);
    lemma_year_length(y + 1);
    let t = week_thursday(day);
    let j = epoch_day(y, 1, 1);
    assert(day == j + doy - 1);
    assert(epoch_day(y + 1, 1, 1) == j + 365 + leap_days(y));
    assert(epoch_day(y, 12, 31) == j + 364 + leap_days(y));
    assert(epoch_day(y - 1, 1, 1) == j - 365 - leap_days(y - 1));
    assert(epoch_day(y - 1, 12, 31) == j - 1);
    assert(t % 7 == 0);
    assert(weekday(t) == 4);
    assert((doy - iso_weekday(day) + 10) == t - j + 7);
}

/// The Thursday of the ISO week of a date.
pub fn iso_week_thursday(y: i32, m: u8, d: u8) -> (r: (i32, u8, u8))
    requires
        valid_date(y as int, m as int, d as int),
        has_date(week_thursday(epoch_day(y as int, m as int, d as int))),
    ensures
        valid_date(r.0 as int, r.1 as int, r.2 as int),
        epoch_day(r.0 as int, r.1 as int, r.2 as int) == week_thursday(
            epoch_day(y as int, m as int, d as int),
        ),
{
    let dow: i32 = (day_of_week(y, m, d) as i32 + 6) % 7;
    let offset: i32 = 3 - dow;
    add_days(y, m, d, offset)
}

/// The date `delta` days after a date.
pub fn add_days(y: i32, m: u8, d: u8, delta: i32) -> (r: (i32, u8, u8))
    requires
        valid_date(y as int, m as int, d as int),
        has_date(epoch_day(y as int, m as int, d as int) + delta),
    ensures
        valid_date(r.0 as int, r.1 as int, r.2 as int),
        epoch_day(r.0 as int, r.1 as int, r.2 as int) == epoch_day(y as int, m as int, d as int) + delta,
{
    let days: i64 = ymd_to_epoch_days(y, m, d);
    proof {
        lemma_has_date(days + delta);
    }
    days_to_ymd(days + delta as i64)
}

/// Which week of its month a week is, from the day of the month of its
/// Thursday: the number of Thursdays of the month so far.
pub fn week_of_month(thursday_day: u8) -> (r: u32)
    ensures
        r == (thursday_day + 6) / 7,
{
    (thursday_day as u32 + 6) / 7
}

/// Date and time of day of a number of seconds since the Unix epoch.
pub fn secs_to_ymd_hms(secs: i64) -> (r: (i32, u8, u8, u8, u8, u8))
    requires
        has_date(secs as int / 86400),
    ensures
        valid_date(r.0 as int, r.1 as int, r.2 as int),
        r.3 < 24,
        r.4 < 60,
        r.5 < 60,
        -10_000_000_000_000_000 <= secs <= 10_000_000_000_000_000 ==> -400_000_000 <= r.0 <= 400_000_000,
        secs == epoch_day(r.0 as int, r.1 as int, r.2 as int) * 86400 + r.3 * 3600 + r.4 * 60 + r.5,
{
    let date_days: i64 = floor_div(secs, 86400);
    let time_secs: i64 = floor_mod(secs, 86400);
    let h: u8 = (time_secs / 3600) as u8;
    let mi: u8 = ((time_secs % 3600) / 60) as u8;
    let s: u8 = (time_secs % 60) as u8;
    let (y, mo, d) = days_to_ymd(date_days);
    (y, mo, d, h, mi, s)
}

/// Epoch milliseconds of calendar components, where they can be represented.
pub fn datetime_to_epoch_ms(y: i32, m: i64, d: i64, h: i64, mi: i64, s: i64, ms: i64) -> (r: Option<i64>)
    requires
        m > i64::MIN,
    ensures
        match r {
            Some(t) => t == epoch_ms(
                y as int,
                m as int,
                d as int,
                h as int,
                mi as int,
                s as int,
                ms as int,
            ) && ms_representable(
                y as int,
                m as int,
                d as int,
                h as int,
                mi as int,
                s as int,
                ms as int,
            ),
            None => !ms_representable(
                y as int,
                m as int,
                d as int,
                h as int,
                mi as int,
                s as int,
                ms as int,
            ),
        },
{
    let years_extra: i64 = floor_div(m - 1, 12);
    let m_norm: u8 = (floor_mod(m - 1, 12) + 1) as u8;
    let year: i64 = match (y as i64).checked_add(years_extra) {
        Some(v) => v,
        None => {
            return None;
        },
    };
    if year < i32::MIN as i64 || year > i32::MAX as i64 {
        return None;
    }
    let before: i64 = match d.checked_sub(1) {
        Some(v) => v,
        None => {
            return None;
        },
    };
    let first: i64 = ymd_to_epoch_days(year as i32, m_norm, 1);
    let days: i64 = match first.checked_add(before) {
        Some(v) => v,
        None => {
            return None;
        },
    };
    let a: i64 = match days.checked_mul(86_400_000) {
        Some(v) => v,
        None => {
            return None;
        },
    };
    let hours: i64 = match h.checked_mul(3_600_000) {
        Some(v) => v,
        None => {
            return None;
        },
    };
    let b: i64 = match a.checked_add(hours) {
        Some(v) => v,
        None => {
            return None;
        },
    };
    let minutes: i64 = match mi.checked_mul(60_000) {
        Some(v) => v,
        None => {
            return None;
        },
    };
    let c: i64 = match b.checked_add(minutes) {
        Some(v) => v,
        None => {
            return None;
        },
    };
    let seconds: i64 = match s.checked_mul(1000) {
        Some(v) => v,
        None => {
            return None;
        },
    };
    let e: i64 = match c.checked_add(seconds) {
        Some(v) => v,
        None => {
            return None;
        },
    };
    e.checked_add(ms)
}

pub open spec fn in_i64(x: int) -> bool {
    i64::MIN <= x <= i64::MAX
}

/// Whether every step of summing up the components, in order, fits.
pub open spec fn ms_representable(y: int, m: int, d: int, h: int, mi: int, s: int, ms: int) -> bool {
    let year = y + (m - 1) / 12;
    let day = epoch_day(year, (m - 1) % 12 + 1, 1) + d - 1;
    &&& i32::MIN <= year <= i32::MAX
    &&& in_i64(d - 1)
    &&& in_i64(day)
    &&& in_i64(day * 86_400_000)
    &&& in_i64(h * 3_600_000)
    &&& in_i64(day * 86_400_000 + h * 3_600_000)
    &&& in_i64(mi * 60_000)
    &&& in_i64(day * 86_400_000 + h * 3_600_000 + mi * 60_000)
    &&& in_i64(s * 1000)
    &&& in_i64(day * 86_400_000 + h * 3_600_000 + mi * 60_000 + s * 1000)
    &&& in_i64(day * 86_400_000 + h * 3_600_000 + mi * 60_000 + s * 1000 + ms)
}

} // verus!
