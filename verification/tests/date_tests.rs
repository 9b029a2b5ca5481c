use lift_log::date::{
    date_le, day_number, days_in_month, format_date, is_leap_year, max_date, min_date, next_day,
    parse_date, prev_day, weekday, Date,
};

fn d(year: u32, month: u32, day: u32) -> Date {
    Date { year, month, day }
}

#[test]
fn leap_year_rules() {
    assert!(is_leap_year(2024));
    assert!(is_leap_year(2000));
    assert!(!is_leap_year(1900));
    assert!(!is_leap_year(2023));
}

#[test]
fn month_lengths() {
    assert_eq!(days_in_month(2024, 2), 29);
    assert_eq!(days_in_month(2023, 2), 28);
    assert_eq!(days_in_month(2024, 1), 31);
    assert_eq!(days_in_month(2024, 4), 30);
    assert_eq!(days_in_month(2024, 12), 31);
}

#[test]
fn day_number_starts_at_zero() {
    assert_eq!(day_number(&min_date()), 0);
    assert_eq!(day_number(&d(1, 1, 2)), 1);
    assert_eq!(day_number(&d(1, 2, 1)), 31);
}

#[test]
fn weekday_anchor_is_monday() {
    // 2024-01-01 was a Monday; 2024-01-07 a Sunday; 2026-10-12 a Monday.
    assert_eq!(weekday(&d(2024, 1, 1)), 0);
    assert_eq!(weekday(&d(2024, 1, 7)), 6);
    assert_eq!(weekday(&d(2024, 1, 8)), 0);
    assert_eq!(weekday(&d(2026, 10, 12)), 0);
}

#[test]
fn day_number_of_last_representable_day() {
    // 9998 whole years of 365 days plus 2424 leap days, plus 364 days
    // into the final year.
    assert_eq!(day_number(&max_date()), 3_652_058);
}

#[test]
fn format_is_zero_padded() {
    assert_eq!(format_date(&d(2024, 1, 5)), b"2024-01-05".to_vec());
    assert_eq!(format_date(&d(987, 12, 31)), b"0987-12-31".to_vec());
}

#[test]
fn parse_accepts_valid_headers() {
    assert_eq!(parse_date(&b"2024-01-05".to_vec()), Some(d(2024, 1, 5)));
    assert_eq!(parse_date(&b"2024-02-29".to_vec()), Some(d(2024, 2, 29)));
    assert_eq!(parse_date(&b"0001-01-01".to_vec()), Some(d(1, 1, 1)));
}

#[test]
fn parse_rejects_non_headers() {
    assert_eq!(parse_date(&b"2023-02-29".to_vec()), None);
    assert_eq!(parse_date(&b"2024-13-01".to_vec()), None);
    assert_eq!(parse_date(&b"2024-00-10".to_vec()), None);
    assert_eq!(parse_date(&b"2024-1-5".to_vec()), None);
    assert_eq!(parse_date(&b"2024-01-05 ".to_vec()), None);
    assert_eq!(parse_date(&b"    #set bench: 3x8 [135lbs] (2 RIR)".to_vec()), None);
    assert_eq!(parse_date(&b"".to_vec()), None);
}

#[test]
fn round_trip_format_parse() {
    for &(y, m, dy) in &[(2024u32, 2u32, 29u32), (1u32, 1u32, 1u32), (9999u32, 12u32, 31u32)] {
        let date = d(y, m, dy);
        assert_eq!(parse_date(&format_date(&date)), Some(date));
    }
}

#[test]
fn ordering_by_day_number() {
    assert!(date_le(&d(2024, 1, 1), &d(2024, 1, 1)));
    assert!(date_le(&d(2023, 12, 31), &d(2024, 1, 1)));
    assert!(!date_le(&d(2024, 1, 2), &d(2024, 1, 1)));
    assert!(date_le(&min_date(), &max_date()));
}

#[test]
fn next_and_prev_cross_boundaries() {
    assert_eq!(next_day(&d(2024, 2, 28)), d(2024, 2, 29));
    assert_eq!(next_day(&d(2023, 2, 28)), d(2023, 3, 1));
    assert_eq!(next_day(&d(2023, 12, 31)), d(2024, 1, 1));
    assert_eq!(prev_day(&d(2024, 3, 1)), d(2024, 2, 29));
    assert_eq!(prev_day(&d(2024, 1, 1)), d(2023, 12, 31));
    assert_eq!(prev_day(&d(2024, 1, 2)), d(2024, 1, 1));
}
