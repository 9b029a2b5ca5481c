use lift_log::bounds::{date_from_ymd, derive_bounds, today, RangeSelector};
use lift_log::date::Date;

fn d(year: u32, month: u32, day: u32) -> Date {
    Date { year, month, day }
}

#[test]
fn no_selector_is_unbounded() {
    let (start, end) = derive_bounds(&d(2024, 6, 15), None);
    assert_eq!(start, d(1, 1, 1));
    assert_eq!(end, d(9999, 12, 31));
}

#[test]
fn today_selector() {
    let (start, end) = derive_bounds(&d(2024, 6, 15), Some(RangeSelector::Today));
    assert_eq!(start, d(2024, 6, 15));
    assert_eq!(end, d(2024, 6, 15));
}

#[test]
fn yesterday_crosses_year() {
    let (start, end) = derive_bounds(&d(2024, 1, 1), Some(RangeSelector::Yesterday));
    assert_eq!(start, d(2023, 12, 31));
    assert_eq!(end, d(2023, 12, 31));
}

#[test]
fn this_week_from_midweek() {
    // 2024-01-10 was a Wednesday.
    let (start, end) = derive_bounds(&d(2024, 1, 10), Some(RangeSelector::ThisWeek));
    assert_eq!(start, d(2024, 1, 8));
    assert_eq!(end, d(2024, 1, 14));
}

#[test]
fn this_week_from_monday() {
    let (start, end) = derive_bounds(&d(2024, 1, 8), Some(RangeSelector::ThisWeek));
    assert_eq!(start, d(2024, 1, 8));
    assert_eq!(end, d(2024, 1, 14));
}

#[test]
fn last_week_from_monday_is_previous_week() {
    // When today is a Monday, last week is the whole previous calendar
    // week, not the week today starts.
    let (start, end) = derive_bounds(&d(2024, 1, 8), Some(RangeSelector::LastWeek));
    assert_eq!(start, d(2024, 1, 1));
    assert_eq!(end, d(2024, 1, 7));
}

#[test]
fn last_week_from_midweek() {
    // 2024-01-10 was a Wednesday; six days earlier falls in the previous week.
    let (start, end) = derive_bounds(&d(2024, 1, 10), Some(RangeSelector::LastWeek));
    assert_eq!(start, d(2024, 1, 1));
    assert_eq!(end, d(2024, 1, 7));
}

#[test]
fn this_month_in_leap_february() {
    let (start, end) = derive_bounds(&d(2024, 2, 15), Some(RangeSelector::ThisMonth));
    assert_eq!(start, d(2024, 2, 1));
    assert_eq!(end, d(2024, 2, 29));
}

#[test]
fn this_month_in_december() {
    let (start, end) = derive_bounds(&d(2024, 12, 15), Some(RangeSelector::ThisMonth));
    assert_eq!(start, d(2024, 12, 1));
    assert_eq!(end, d(2024, 12, 31));
}

#[test]
fn last_month_in_january_is_december_before() {
    let (start, end) = derive_bounds(&d(2024, 1, 15), Some(RangeSelector::LastMonth));
    assert_eq!(start, d(2023, 12, 1));
    assert_eq!(end, d(2023, 12, 31));
}

#[test]
fn last_month_in_march_ends_on_leap_day() {
    let (start, end) = derive_bounds(&d(2024, 3, 10), Some(RangeSelector::LastMonth));
    assert_eq!(start, d(2024, 2, 1));
    assert_eq!(end, d(2024, 2, 29));
}

#[test]
fn date_from_ymd_checks_validity() {
    assert_eq!(date_from_ymd(2024, 2, 29), Some(d(2024, 2, 29)));
    assert_eq!(date_from_ymd(2023, 2, 29), None);
    assert_eq!(date_from_ymd(-5, 1, 1), None);
    assert_eq!(date_from_ymd(2024, 0, 1), None);
    assert_eq!(date_from_ymd(2024, 12, 32), None);
}

#[test]
fn clock_names_a_representable_day() {
    // The machine's clock should name a day the log can represent.
    let now = today().expect("the clock names a representable day");
    assert!(2 <= now.year && now.year <= 9998);
    assert!(1 <= now.month && now.month <= 12);
    assert!(1 <= now.day && now.day <= 31);
}
