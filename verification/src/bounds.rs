//! Derivation of inclusive date ranges from a selector and a reference
//! day, plus the one place the library reads the machine's clock.

use vstd::prelude::*;
use chrono::Datelike;
use crate::date::Date;
use crate::date::days_in_month;
use crate::date::spec_date_le;
use crate::date::spec_day_number;
use crate::date::spec_days_in_month;
use crate::date::spec_max_date;
use crate::date::spec_min_date;
use crate::date::spec_weekday;
use crate::date::add_days;
use crate::date::lemma_day_number_bounds;
use crate::date::lemma_day_number_lower;
use crate::date::lemma_days_before_month_monotone;
use crate::date::lemma_days_before_year_monotone;
use crate::date::lemma_days_in_year;
use crate::date::max_date;
use crate::date::min_date;
use crate::date::sub_days;
use crate::date::weekday;

verus! {

/// The named spans a scan can be limited to; without one the range is
/// unbounded.
#[derive(Clone, Copy, Debug)]
pub enum RangeSelector {
    Today,
    Yesterday,
    ThisWeek,
    LastWeek,
    ThisMonth,
    LastMonth,
}

/// A date with a year short enough of both representable extremes that
/// every selector's span stays representable.
pub open spec fn spec_anchor_ok(d: Date) -> bool {
    d.valid() && 2 <= d.year <= 9998
}

/// Day number of the Monday that starts the week of the day six days
/// before `d` — the anchor the last-week selector is defined by.
pub open spec fn spec_last_week_start(d: Date) -> int {
    spec_day_number(d) - 6 - (spec_day_number(d) - 6) % 7
}

/// A date one year short of the last representable one leaves at least a
/// year of room below the maximum day number.
pub proof fn lemma_day_number_room(d: Date)
    requires
        d.valid(),
        d.year <= 9998,
    ensures
        spec_day_number(d) + 365 <= spec_day_number(spec_max_date()),
{
    let y = d.year as int;
    let m = d.month as int;
    lemma_days_before_month_monotone(y, m + 1, 13);
    assert(crate::date::spec_days_before_month(y, m + 1)
        == crate::date::spec_days_before_month(y, m) + spec_days_in_month(y, m));
    assert(spec_day_number(d)
        < crate::date::spec_days_before_year(y) + crate::date::spec_days_in_year(y));
    assert(crate::date::spec_days_before_year(y + 1)
        == crate::date::spec_days_before_year(y) + crate::date::spec_days_in_year(y));
    lemma_days_before_year_monotone(y + 1, 9999);
    lemma_days_in_year(9999);
    assert(crate::date::spec_days_before_month(9999, 13)
        == crate::date::spec_days_before_month(9999, 12) + 31);
    assert(spec_day_number(spec_max_date())
        == crate::date::spec_days_before_year(9999)
        + crate::date::spec_days_before_month(9999, 12) + 30);
}

/// Turns a selector into the inclusive date range it names, relative to
/// `today`; no selector means the whole representable range.
pub fn derive_bounds(today: &Date, range: Option<RangeSelector>) -> (r: (Date, Date))
    requires
        spec_anchor_ok(*today),
    ensures
        r.0.valid(),
        r.1.valid(),
        match range {
            None => r.0 == spec_min_date() && r.1 == spec_max_date(),
            Some(RangeSelector::Today) => r.0 == *today && r.1 == *today,
            Some(RangeSelector::Yesterday) => spec_day_number(r.0) == spec_day_number(*today) - 1
                && r.1 == r.0,
            Some(RangeSelector::ThisWeek) => spec_day_number(r.0) == spec_day_number(*today)
                - spec_weekday(*today) && spec_day_number(r.1) == spec_day_number(r.0) + 6,
            Some(RangeSelector::LastWeek) => spec_day_number(r.0) == spec_last_week_start(*today)
                && spec_day_number(r.1) == spec_day_number(r.0) + 6,
            Some(RangeSelector::ThisMonth) => r.0 == (Date {
                year: today.year,
                month: today.month,
                day: 1,
            }) && r.1 == (Date {
                year: today.year,
                month: today.month,
                day: spec_days_in_month(today.year as int, today.month as int) as u32,
            }),
            Some(RangeSelector::LastMonth) => {
                let ly: u32 = if today.month == 1 { (today.year - 1) as u32 } else { today.year };
                let lm: u32 = if today.month == 1 { 12u32 } else { (today.month - 1) as u32 };
                r.0 == (Date { year: ly, month: lm, day: 1 }) && r.1 == (Date {
                    year: ly,
                    month: lm,
                    day: spec_days_in_month(ly as int, lm as int) as u32,
                })
            },
        },
{
    proof {
        lemma_day_number_lower(*today);
        lemma_day_number_room(*today);
    }
    match range {
        None => (min_date(), max_date()),
        Some(RangeSelector::Today) => (*today, *today),
        Some(RangeSelector::Yesterday) => {
            let d = sub_days(today, 1);
            (d, d)
        },
        Some(RangeSelector::ThisWeek) => {
            let wd = weekday(today);
            let start = sub_days(today, wd);
            let end = add_days(&start, 6);
            (start, end)
        },
        Some(RangeSelector::LastWeek) => {
            let anchor = sub_days(today, 6);
            let wd = weekday(&anchor);
            let start = sub_days(&anchor, wd);
            let end = add_days(&start, 6);
            (start, end)
        },
        Some(RangeSelector::ThisMonth) => {
            let start = Date { year: today.year, month: today.month, day: 1 };
            let end = Date {
                year: today.year,
                month: today.month,
                day: days_in_month(today.year, today.month),
            };
            (start, end)
        },
        Some(RangeSelector::LastMonth) => {
            let (ly, lm) = if today.month == 1 {
                (today.year - 1, 12)
            } else {
                (today.year, today.month - 1)
            };
            let start = Date { year: ly, month: lm, day: 1 };
            let end = Date { year: ly, month: lm, day: days_in_month(ly, lm) };
            (start, end)
        },
    }
}

/// When today is itself a Monday, the last-week selector names the whole
/// previous calendar week, ending the day before today — not the week
/// today starts.
pub proof fn lemma_last_week_previous_week(today: Date)
    requires
        spec_anchor_ok(today),
        spec_weekday(today) == 0,
    ensures
        spec_last_week_start(today) == spec_day_number(today) - 7,
        spec_last_week_start(today) + 6 == spec_day_number(today) - 1,
{
    let dn = spec_day_number(today);
    lemma_day_number_lower(today);
    let k = dn / 7;
    assert(dn == 7 * k);
    vstd::arithmetic::div_mod::lemma_mod_multiples_vanish(k - 1, 1, 7);
    assert((dn - 6) % 7 == (7 * (k - 1) + 1) % 7);
    assert((dn - 6) % 7 == 1);
}

/// The unbounded range admits every valid date: scanning without a
/// selector filters nothing out by date.
pub proof fn lemma_unbounded_range_covers(d: Date)
    requires
        d.valid(),
    ensures
        spec_date_le(spec_min_date(), d),
        spec_date_le(d, spec_max_date()),
{
    lemma_day_number_bounds(d);
}

/// Relies on chrono's `Local::now` for the current civil date in the
/// machine's local time zone; chrono documents `month()` as 1..=12 and
/// `day()` as 1..=31 for any `NaiveDate`.
#[verifier::external_body]
fn current_local_ymd() -> (r: (i32, u32, u32))
    ensures
        1 <= r.1 <= 12,
        1 <= r.2 <= 31,
{
    let d = chrono::Local::now().naive_local().date();
    (d.year(), d.month(), d.day())
}

/// Checks a year-month-day triple from outside the library and admits it
/// as a `Date` exactly when it is a valid date whose year leaves every
/// selector's span representable.
pub fn date_from_ymd(y: i32, m: u32, d: u32) -> (r: Option<Date>)
    ensures
        match r {
            Some(date) => {
                &&& spec_anchor_ok(date)
                &&& date.year == y
                &&& date.month == m
                &&& date.day == d
            },
            None => !(2 <= y <= 9998 && 1 <= m <= 12 && 1 <= d
                && d <= spec_days_in_month(y as int, m as int)),
        },
{
    if 2 <= y && y <= 9998 {
        let yy = y as u32;
        if 1 <= m && m <= 12 && 1 <= d && d <= days_in_month(yy, m) {
            return Some(Date { year: yy, month: m, day: d });
        }
        None
    } else {
        None
    }
}

/// The current local date, when the clock names a day the log can
/// represent.
pub fn today() -> (r: Option<Date>)
    ensures
        match r {
            Some(date) => spec_anchor_ok(date),
            None => true,
        },
{
    let (y, m, d) = current_local_ymd();
    date_from_ymd(y, m, d)
}

} // verus!
