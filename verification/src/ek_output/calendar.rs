//! Calendar dates from days since the epoch.

use vstd::prelude::*;

verus! {

/// Whether `y` is a leap year of the Gregorian calendar.
pub open spec fn is_leap(y: int) -> bool {
    y % 4 == 0 && (y % 100 != 0 || y % 400 == 0)
}

/// The number of days of month `m` of year `y`.
pub open spec fn days_in_month(y: int, m: int) -> int {
    if m == 2 {
        if is_leap(y) {
            29
        } else {
            28
        }
    } else if m == 4 || m == 6 || m == 9 || m == 11 {
        30
    } else {
        31
    }
}

/// The number of days of year `y` before month `m`.
pub open spec fn days_before_month(y: int, m: int) -> int
    decreases m,
{
    if m <= 1 {
        0
    } else {
        days_before_month(y, m - 1) + days_in_month(y, m - 1)
    }
}

/// The number of days from the epoch to the first of January of year `y`: 365 for each year in
/// between, and one for each leap year among them.
pub open spec fn days_before_year(y: int) -> int {
    365 * (y - 1970) + ((y - 1) / 4 - 492) - ((y - 1) / 100 - 19) + ((y - 1) / 400 - 4)
}

/// The number of days from the epoch to a date.
pub open spec fn days_from_civil(y: int, m: int, d: int) -> int {
    days_before_year(y) + days_before_month(y, m) + d - 1
}

/// `(y, m, d)` is a date of the calendar.
pub open spec fn is_date(y: int, m: int, d: int) -> bool {
    1 <= m <= 12 && 1 <= d <= days_in_month(y, m)
}

/// Years follow each other by 365 days, or 366 after a leap year.
pub proof fn law_years_follow_each_other(y: int)
    ensures
        days_before_year(1970) == 0,
        days_before_year(y + 1) == days_before_year(y) + if is_leap(y) {
            366int
        } else {
            365int
        },
{
}

/// The number of days of a 400-year era before its year `yoe`, where years begin in March.
spec fn era_days_before(yoe: int) -> int {
    365 * yoe + yoe / 4 - yoe / 100
}

/// The year of the era that day `doe` of the era falls in.
spec fn year_of_era(doe: int) -> int {
    (doe - doe / 1460 + doe / 36524 - doe / 146096) / 365
}

/// Day `doe` of the era is one of the 365 days of its year, or the last of 366 where the February
/// at the year's end has 29 days.
proof fn lemma_year_of_era(doe: int)
    requires
        0 <= doe < 146097,
    ensures
        0 <= year_of_era(doe) <= 399,
        0 <= doe - era_days_before(year_of_era(doe)) <= 365,
        doe - era_days_before(year_of_era(doe)) == 365 ==> is_leap(year_of_era(doe) + 1),
{
    if doe < 146096 {
        let c = doe / 36524;
        let r = doe % 36524;
        let q = r / 1461;
        let s = r % 1461;
        let e = if 24 * c + q + s >= 1460 { 1int } else { 0int };
        assert(0 <= c <= 3 && 0 <= q <= 24 && 0 <= s <= 1460);
        assert(doe == 36524 * c + 1461 * q + s);
        assert(doe / 1460 == 25 * c + q + e);
        assert(doe / 146096 == 0);
        let t = (s - e) / 365;
        assert(0 <= t <= 3);
        assert(doe - doe / 1460 + doe / 36524 - doe / 146096 == 365 * (100 * c + 4 * q) + (s - e));
        assert(year_of_era(doe) == 100 * c + 4 * q + t);
        assert((100 * c + 4 * q + t) / 4 == 25 * c + q);
        assert((100 * c + 4 * q + t) / 100 == c);
        assert(doe - era_days_before(year_of_era(doe)) == s - 365 * t);
        if s - 365 * t == 365 {
            assert(s == 1460 && t == 3);
            assert(q <= 23);
            assert((100 * c + 4 * q + 4) % 4 == 0);
            assert((100 * c + 4 * q + 4) % 100 == 4 * q + 4);
        }
    }
}

/// The number of days of a year that begins in March before its month `mp`, counted from zero.
spec fn march_days_before(mp: int) -> int {
    (153 * mp + 2) / 5
}

/// The month that day `doy` of a year that begins in March falls in, counted from zero.
spec fn march_month(doy: int) -> int {
    (5 * doy + 2) / 153
}

/// The day lies within its month.
proof fn lemma_march_month(doy: int)
    requires
        0 <= doy <= 365,
    ensures
        0 <= march_month(doy) <= 11,
        march_days_before(march_month(doy)) <= doy,
        march_month(doy) < 11 ==> doy < march_days_before(march_month(doy) + 1),
        march_days_before(0) == 0,
        march_days_before(1) == 31,
        march_days_before(2) == 61,
        march_days_before(3) == 92,
        march_days_before(4) == 122,
        march_days_before(5) == 153,
        march_days_before(6) == 184,
        march_days_before(7) == 214,
        march_days_before(8) == 245,
        march_days_before(9) == 275,
        march_days_before(10) == 306,
        march_days_before(11) == 337,
{
}

/// The number of days before a month, counted from the March before.
proof fn lemma_days_before_month(y: int, mp: int)
    requires
        0 <= mp <= 11,
    ensures
        mp < 10 ==> days_before_month(y, mp + 3) == march_days_before(mp) + 59 + if is_leap(y) {
            1int
        } else {
            0int
        },
        mp >= 10 ==> days_before_month(y, mp - 9) == march_days_before(mp) - 306,
{
    reveal_with_fuel(days_before_month, 13);
    lemma_march_month(0);
}

/// The first of March of year `y` of the calendar, counted from the epoch.
proof fn lemma_first_of_march(era: int, yoe: int)
    requires
        0 <= yoe <= 399,
    ensures
        days_before_year(yoe + era * 400 + 1) - 306 == era * 146097 + era_days_before(yoe) - 719468,
        is_leap(yoe + era * 400 + 1) == is_leap(yoe + 1),
{
    let y = yoe + era * 400;
    assert(y / 4 == 100 * era + yoe / 4);
    assert(y / 100 == 4 * era + yoe / 100);
    assert(y / 400 == era);
    assert((y + 1) % 4 == (yoe + 1) % 4);
    assert((y + 1) % 100 == (yoe + 1) % 100);
    assert((y + 1) % 400 == (yoe + 1) % 400);
}

/// The date that lies `z` days after 1970-01-01.
pub fn civil_from_days(z: i64) -> (date: (i64, u32, u32))
    requires
        z <= i64::MAX - 719468,
    ensures
        is_date(date.0 as int, date.1 as int, date.2 as int),
        days_from_civil(date.0 as int, date.1 as int, date.2 as int) == z,
{
    let ghost days = z as int;
    let z: i64 = z + 719468;
    let era: i64 = if z >= 0 { z / 146097 } else { (z - 146096) / 146097 };
    assert(0 <= z - era * 146097 < 146097);
    let doe: u64 = (z - era * 146097) as u64;
    let yoe: u64 = (doe - doe / 1460 + doe / 36524 - doe / 146096) / 365;
    proof {
        lemma_year_of_era(doe as int);
        lemma_first_of_march(era as int, yoe as int);
    }
    let y: i64 = yoe as i64 + era * 400;
    let doy: u64 = doe - (365 * yoe + yoe / 4 - yoe / 100);
    let mp: u64 = (5 * doy + 2) / 153;
    proof {
        lemma_march_month(doy as int);
        lemma_days_before_month(y as int, mp as int);
        lemma_days_before_month(y + 1, mp as int);
        law_years_follow_each_other(y as int);
    }
    let d: u32 = (doy - (153 * mp + 2) / 5 + 1) as u32;
    let m: u32 = if mp < 10 { (mp + 3) as u32 } else { (mp - 9) as u32 };
    (if m <= 2 { y + 1 } else { y }, m, d)
}

/// Every day has a date.
pub proof fn law_every_day_has_a_date(days: int) -> (date: (int, int, int))
    ensures
        is_date(date.0, date.1, date.2),
        days_from_civil(date.0, date.1, date.2) == days,
{
    let z = days + 719468;
    let era = z / 146097;
    let doe = z - era * 146097;
    let yoe = year_of_era(doe);
    lemma_year_of_era(doe);
    lemma_first_of_march(era, yoe);
    let y = yoe + era * 400;
    let doy = doe - era_days_before(yoe);
    let mp = march_month(doy);
    lemma_march_month(doy);
    lemma_days_before_month(y, mp);
    lemma_days_before_month(y + 1, mp);
    law_years_follow_each_other(y);
    let d = doy - march_days_before(mp) + 1;
    let m = if mp < 10 { mp + 3 } else { mp - 9 };
    (if m <= 2 { y + 1 } else { y }, m, d)
}

proof fn lemma_month_table(y: int)
    ensures
        ({
            let l = if is_leap(y) { 1int } else { 0int };
            &&& days_before_month(y, 1) == 0
            &&& days_before_month(y, 2) == 31
            &&& days_before_month(y, 3) == 59 + l
            &&& days_before_month(y, 4) == 90 + l
            &&& days_before_month(y, 5) == 120 + l
            &&& days_before_month(y, 6) == 151 + l
            &&& days_before_month(y, 7) == 181 + l
            &&& days_before_month(y, 8) == 212 + l
            &&& days_before_month(y, 9) == 243 + l
            &&& days_before_month(y, 10) == 273 + l
            &&& days_before_month(y, 11) == 304 + l
            &&& days_before_month(y, 12) == 334 + l
        }),
{
    reveal_with_fuel(days_before_month, 13);
}

/// The months of a year follow each other without overlap.
proof fn lemma_months_follow(y: int, m: int, later: int)
    requires
        1 <= m < later <= 12,
    ensures
        days_before_month(y, m) + days_in_month(y, m) <= days_before_month(y, later),
    decreases later - m,
{
    if m + 1 < later {
        lemma_months_follow(y, m + 1, later);
    }
}

proof fn lemma_day_of_year(y: int, m: int, d: int)
    requires
        is_date(y, m, d),
    ensures
        0 <= days_before_month(y, m) + d - 1 < if is_leap(y) {
            366int
        } else {
            365int
        },
{
    lemma_month_table(y);
    if m < 12 {
        lemma_months_follow(y, m, 12);
    }
    if m > 1 {
        lemma_months_follow(y, 1, m);
    }
}

/// Every date has its own day.
pub proof fn law_dates_are_distinct(y: int, m: int, d: int, y2: int, m2: int, d2: int)
    requires
        is_date(y, m, d),
        is_date(y2, m2, d2),
        days_from_civil(y, m, d) == days_from_civil(y2, m2, d2),
    ensures
        y == y2 && m == m2 && d == d2,
{
    lemma_year_bound(y, y2);
    lemma_year_bound(y2, y);
    lemma_day_of_year(y, m, d);
    lemma_day_of_year(y2, m2, d2);
    law_years_follow_each_other(y);
    law_years_follow_each_other(y2);
    if m < m2 {
        lemma_months_follow(y, m, m2);
    } else if m2 < m {
        lemma_months_follow(y, m2, m);
    }
}

/// A later year begins no earlier than the next one.
proof fn lemma_year_bound(y: int, later: int)
    ensures
        y < later ==> days_before_year(later) >= days_before_year(y + 1),
    decreases later - y,
{
    if y + 1 < later {
        lemma_year_bound(y + 1, later);
        law_years_follow_each_other(y + 1);
    }
}

/// No date from the epoch on is in a year before 1970.
pub(crate) proof fn lemma_epoch_years(y: int, m: int, d: int)
    requires
        is_date(y, m, d),
        days_from_civil(y, m, d) >= 0,
    ensures
        y >= 1970,
{
    lemma_day_of_year(y, m, d);
    lemma_year_bound(y, 1970);
    law_years_follow_each_other(y);
}

/// Days follow each other by one, within a month and from its last day to the first of the next,
/// and the twelve months fill the year; the epoch is the first of January 1970.
pub proof fn law_days_follow_each_other(y: int, m: int, d: int)
    requires
        1 <= m <= 12,
    ensures
        days_from_civil(1970, 1, 1) == 0,
        days_from_civil(y, m, d + 1) == days_from_civil(y, m, d) + 1,
        m < 12 ==> days_from_civil(y, m + 1, 1) == days_from_civil(y, m, days_in_month(y, m)) + 1,
        days_from_civil(y + 1, 1, 1) == days_from_civil(y, 12, 31) + 1,
        m == 2 && y % 4 == 0 && y % 100 != 0 ==> days_in_month(y, m) == 29,
        m == 2 && y % 400 == 0 ==> days_in_month(y, m) == 29,
        m == 2 && (y % 4 != 0 || (y % 100 == 0 && y % 400 != 0)) ==> days_in_month(y, m) == 28,
        (m == 4 || m == 6 || m == 9 || m == 11) ==> days_in_month(y, m) == 30,
        (m == 1 || m == 3 || m == 5 || m == 7 || m == 8 || m == 10 || m == 12) ==> days_in_month(
            y,
            m,
        ) == 31,
{
    law_years_follow_each_other(y);
    reveal_with_fuel(days_before_month, 13);
}

} // verus!
