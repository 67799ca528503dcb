//! The proleptic Gregorian calendar as the rest of the crate sees it: a date
//! is identified by its day number (January 1 of year 1 is day 1), and the
//! conversions to and from year/month/day are done by `chrono`, whose
//! results are stated here over the spec model below.

use vstd::prelude::*;
use chrono::{Datelike, NaiveDate};

verus! {

pub open spec fn is_leap_year(y: int) -> bool {
    (y % 4 == 0 && y % 100 != 0) || y % 400 == 0
}

pub open spec fn days_in_month(y: int, m: int) -> int {
    if m == 2 {
        if is_leap_year(y) { 29 } else { 28 }
    } else if m == 4 || m == 6 || m == 9 || m == 11 {
        30
    } else {
        31
    }
}

/// Days of year `y` that come before the first of month `m`.
pub closed spec fn days_before_month(y: int, m: int) -> int {
    let base: int = if m == 1 { 0 }
        else if m == 2 { 31 }
        else if m == 3 { 59 }
        else if m == 4 { 90 }
        else if m == 5 { 120 }
        else if m == 6 { 151 }
        else if m == 7 { 181 }
        else if m == 8 { 212 }
        else if m == 9 { 243 }
        else if m == 10 { 273 }
        else if m == 11 { 304 }
        else { 334 };
    if m > 2 && is_leap_year(y) { base + 1 } else { base }
}

/// Days from the start of the era up to, not including, January 1 of `y`.
pub closed spec fn days_before_year(y: int) -> int {
    let p = y - 1;
    365 * p + p / 4 - p / 100 + p / 400
}

/// The day number of a date: January 1 of year 1 is day 1, December 31
/// of year 0 (1 BCE) is day 0.
pub closed spec fn day_number(y: int, m: int, d: int) -> int {
    days_before_year(y) + days_before_month(y, m) + d
}

pub open spec fn is_valid_date(y: int, m: int, d: int) -> bool {
    1 <= m <= 12 && 1 <= d <= days_in_month(y, m)
}

/// The years `chrono::NaiveDate` can hold.
pub open spec fn min_year() -> int { -262143 }

pub open spec fn max_year() -> int { 262142 }

/// A date that `chrono::NaiveDate` can represent.
pub open spec fn is_chrono_date(y: int, m: int, d: int) -> bool {
    min_year() <= y <= max_year() && is_valid_date(y, m, d)
}

pub open spec fn min_day() -> int { -95746129 }

pub open spec fn max_day() -> int { 95745399 }

/// The day numbers of the dates `chrono::NaiveDate` can represent.
pub open spec fn is_chrono_day(n: int) -> bool {
    min_day() <= n <= max_day()
}

/// Months are numbered consecutively: month `m` of year `y` has index
/// `12 * y + m - 1`.
pub open spec fn month_index(y: int, m: int) -> int {
    12 * y + m - 1
}

pub open spec fn year_of_index(k: int) -> int {
    k / 12
}

pub open spec fn month_of_index(k: int) -> int {
    k % 12 + 1
}

/// Day number of the first day of the month with index `k`.
pub closed spec fn month_start(k: int) -> int {
    day_number(year_of_index(k), month_of_index(k), 1)
}

pub open spec fn month_length(k: int) -> int {
    days_in_month(year_of_index(k), month_of_index(k))
}

/// The date whose day number is `n` (meaningful for chrono days).
pub open spec fn date_of_day(n: int) -> (int, int, int) {
    choose|t: (int, int, int)| is_valid_date(t.0, t.1, t.2) && day_number(t.0, t.1, t.2) == n
}

/// Index of the month that contains day `n`.
pub open spec fn month_of_day(n: int) -> int {
    let t = date_of_day(n);
    month_index(t.0, t.1)
}

pub proof fn lemma_days_in_month_bounds(y: int, m: int)
    ensures
        28 <= days_in_month(y, m) <= 31,
{
}

pub proof fn lemma_year_step(y: int)
    ensures
        days_before_year(y + 1) == days_before_year(y) + 365 + (if is_leap_year(y) { 1int } else { 0int }),
{
    let p = y - 1;
    assert((p + 1) / 4 - p / 4 == (if y % 4 == 0 { 1int } else { 0int }));
    assert((p + 1) / 100 - p / 100 == (if y % 100 == 0 { 1int } else { 0int }));
    assert((p + 1) / 400 - p / 400 == (if y % 400 == 0 { 1int } else { 0int }));
}

pub proof fn lemma_index_roundtrip(y: int, m: int)
    requires
        1 <= m <= 12,
    ensures
        year_of_index(month_index(y, m)) == y,
        month_of_index(month_index(y, m)) == m,
{
    assert((12 * y + m - 1) / 12 == y);
    assert((12 * y + m - 1) % 12 == m - 1);
}

/// Consecutive months start `month_length` days apart.
pub proof fn lemma_month_step(k: int)
    ensures
        month_start(k + 1) == month_start(k) + month_length(k),
{
    let y = year_of_index(k);
    let m = month_of_index(k);
    assert(1 <= m <= 12);
    assert(k == 12 * y + m - 1);
    if m < 12 {
        assert(year_of_index(k + 1) == y);
        assert(month_of_index(k + 1) == m + 1);
    } else {
        assert(year_of_index(k + 1) == y + 1);
        assert(month_of_index(k + 1) == 1);
        lemma_year_step(y);
    }
}

/// Month starts grow by at least 28 days per month.
pub proof fn lemma_month_start_grows(a: int, b: int)
    requires
        a <= b,
    ensures
        month_start(a) + 28 * (b - a) <= month_start(b),
    decreases b - a,
{
    if a < b {
        lemma_month_start_grows(a, b - 1);
        lemma_month_step(b - 1);
        lemma_days_in_month_bounds(year_of_index(b - 1), month_of_index(b - 1));
    }
}

/// A valid date lies inside its month: at or after the month's first day
/// and before the next month's.
pub proof fn lemma_date_in_month(y: int, m: int, d: int)
    requires
        is_valid_date(y, m, d),
    ensures
        day_number(y, m, d) == month_start(month_index(y, m)) + d - 1,
        month_start(month_index(y, m)) <= day_number(y, m, d) < month_start(month_index(y, m) + 1),
{
    lemma_index_roundtrip(y, m);
    lemma_month_step(month_index(y, m));
}

/// Two months whose day ranges overlap are the same month.
pub proof fn lemma_month_ranges_disjoint(a: int, b: int, n: int)
    requires
        month_start(a) <= n < month_start(a + 1),
        month_start(b) <= n < month_start(b + 1),
    ensures
        a == b,
{
    if a < b {
        lemma_month_start_grows(a + 1, b);
    } else if b < a {
        lemma_month_start_grows(b + 1, a);
    }
}

/// The day number determines the date.
pub proof fn lemma_date_unique(y1: int, m1: int, d1: int, y2: int, m2: int, d2: int)
    requires
        is_valid_date(y1, m1, d1),
        is_valid_date(y2, m2, d2),
        day_number(y1, m1, d1) == day_number(y2, m2, d2),
    ensures
        y1 == y2 && m1 == m2 && d1 == d2,
{
    lemma_date_in_month(y1, m1, d1);
    lemma_date_in_month(y2, m2, d2);
    lemma_month_ranges_disjoint(month_index(y1, m1), month_index(y2, m2), day_number(y1, m1, d1));
    lemma_index_roundtrip(y1, m1);
    lemma_index_roundtrip(y2, m2);
}

/// Once some date has day number `n`, `date_of_day(n)` is that date.
pub proof fn lemma_date_of_day(y: int, m: int, d: int)
    requires
        is_valid_date(y, m, d),
    ensures
        date_of_day(day_number(y, m, d)) == (y, m, d),
        month_of_day(day_number(y, m, d)) == month_index(y, m),
{
    let n = day_number(y, m, d);
    assert(is_valid_date((y, m, d).0, (y, m, d).1, (y, m, d).2) && day_number((y, m, d).0, (y, m, d).1, (y, m, d).2) == n);
    let t = date_of_day(n);
    lemma_date_unique(t.0, t.1, t.2, y, m, d);
}

/// The last date chrono holds is December 31 of `max_year()`, day `max_day()`.
pub proof fn lemma_last_chrono_date()
    ensures
        is_chrono_date(max_year(), 12, 31),
        day_number(max_year(), 12, 31) == max_day(),
        day_number(min_year(), 1, 1) == min_day(),
{
}

/// Every date chrono holds has a day number within chrono's day range.
pub proof fn lemma_chrono_date_day(y: int, m: int, d: int)
    requires
        is_chrono_date(y, m, d),
    ensures
        is_chrono_day(day_number(y, m, d)),
        day_number(y, m, d) == month_start(month_index(y, m)) + d - 1,
{
    lemma_last_chrono_date();
    lemma_date_in_month(y, m, d);
    lemma_date_in_month(min_year(), 1, 1);
    lemma_date_in_month(max_year(), 12, 31);
    let k = month_index(y, m);
    let kmin = month_index(min_year(), 1);
    let kmax = month_index(max_year(), 12);
    lemma_month_start_grows(kmin, k);
    lemma_month_start_grows(k + 1, kmax + 1);
}

/// `NaiveDate::from_num_days_from_ce_opt`, read back through the
/// `year`, `month` and `day` getters. chrono documents it as the inverse
/// of `num_days_from_ce` (January 1 of year 1 is day 1) over the dates
/// that `NaiveDate` holds, and `None` outside them.
#[verifier::external_body]
pub(crate) fn date_from_day_number(n: i32) -> (r: Option<(i32, u32, u32)>)
    ensures
        r matches Some(t) ==> is_chrono_date(t.0 as int, t.1 as int, t.2 as int) && day_number(
            t.0 as int,
            t.1 as int,
            t.2 as int,
        ) == n,
        r is None <==> !is_chrono_day(n as int),
{
    NaiveDate::from_num_days_from_ce_opt(n).map(|d| (d.year(), d.month(), d.day()))
}

/// `NaiveDate::from_ymd_opt`, read back as its day number through
/// `num_days_from_ce`: `Some` exactly for the dates `NaiveDate` holds.
#[verifier::external_body]
pub(crate) fn day_number_from_date(y: i32, m: u32, d: u32) -> (r: Option<i32>)
    ensures
        r == (if is_chrono_date(y as int, m as int, d as int) {
            Some(day_number(y as int, m as int, d as int) as i32)
        } else {
            None::<i32>
        }),
{
    NaiveDate::from_ymd_opt(y, m, d).map(|date| date.num_days_from_ce())
}

} // verus!
