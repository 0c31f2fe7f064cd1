use rsfilc::Date;
use rsfilc::dates::date_plus_days;
use rsfilc::dates::days_between;
use rsfilc::dates::format_ymd;
use rsfilc::parse_day;

fn d(year: i32, month: u8, day: u8) -> Date {
    Date { year, month, day }
}

const TODAY: Date = Date { year: 2024, month: 3, day: 15 };

#[test]
fn full_date_parses() {
    assert_eq!(parse_day("2024-12-25", TODAY), Ok(d(2024, 12, 25)));
    assert_eq!(parse_day("2024-3-5", TODAY), Ok(d(2024, 3, 5)));
    assert_eq!(parse_day("520-1-1", TODAY), Ok(d(520, 1, 1)));
}

#[test]
fn full_date_round_trips() {
    for date in [d(2024, 12, 25), d(1999, 1, 1), d(2024, 2, 29), d(987, 3, 5), d(1, 1, 1)] {
        let text = format_ymd(&date);
        assert_eq!(parse_day(&text, TODAY), Ok(date));
    }
}

#[test]
fn format_zero_pads() {
    assert_eq!(format_ymd(&d(987, 3, 5)), "0987-03-05");
    assert_eq!(format_ymd(&d(2024, 12, 25)), "2024-12-25");
}

#[test]
fn month_day_gets_current_year() {
    assert_eq!(parse_day("12-25", TODAY), Ok(d(2024, 12, 25)));
    assert_eq!(parse_day("1-2", TODAY), Ok(d(2024, 1, 2)));
}

#[test]
fn bare_day_gets_current_month() {
    assert_eq!(parse_day("15", TODAY), Ok(d(2024, 3, 15)));
    assert_eq!(parse_day("07", TODAY), Ok(d(2024, 3, 7)));
}

#[test]
fn negative_shift_goes_back() {
    assert_eq!(parse_day("-7", TODAY), Ok(d(2024, 3, 8)));
}

#[test]
fn positive_shift_goes_forward() {
    // 40 is no day of March, so it reads as a shift
    assert_eq!(parse_day("40", TODAY), Ok(d(2024, 4, 24)));
    assert_eq!(parse_day("0", TODAY), Ok(TODAY));
}

#[test]
fn slash_and_dot_separators_work() {
    assert_eq!(parse_day("2024/12/25", TODAY), Ok(d(2024, 12, 25)));
    assert_eq!(parse_day("2024.12.25", TODAY), Ok(d(2024, 12, 25)));
    assert_eq!(parse_day("12.25", TODAY), Ok(d(2024, 12, 25)));
}

#[test]
fn nonsense_is_rejected() {
    assert!(parse_day("not-a-date", TODAY).is_err());
    assert!(parse_day("", TODAY).is_err());
    assert!(parse_day("3-45", TODAY).is_err());
    assert!(parse_day("--5", TODAY).is_err());
}

#[test]
fn invalid_dates_fall_through() {
    // 2023 is no leap year, and nothing else can read this string
    assert!(parse_day("2023-02-29", TODAY).is_err());
    assert_eq!(parse_day("2024-02-29", TODAY), Ok(d(2024, 2, 29)));
}

#[test]
fn shift_range_is_bounded() {
    // a shift outside the 16-bit range is rejected, huge zero-padding too
    assert!(parse_day("99999", TODAY).is_err());
    assert_eq!(parse_day("000040", TODAY), Ok(d(2024, 4, 24)));
}

#[test]
fn day_arithmetic_crosses_leap_february() {
    assert_eq!(date_plus_days(&d(2024, 2, 28), 2), Some(d(2024, 3, 1)));
    assert_eq!(date_plus_days(&d(2023, 2, 28), 2), Some(d(2023, 3, 2)));
    assert_eq!(date_plus_days(&d(2024, 12, 31), 1), Some(d(2025, 1, 1)));
}

#[test]
fn day_difference_is_signed() {
    assert_eq!(days_between(&d(2024, 3, 15), &d(2024, 3, 8)), -7);
    assert_eq!(days_between(&d(2024, 2, 28), &d(2024, 3, 1)), 2);
    assert_eq!(days_between(&d(2024, 3, 11), &d(2024, 3, 18)), 7);
}

#[test]
fn arithmetic_stops_at_supported_years() {
    assert_eq!(date_plus_days(&d(9999, 12, 31), 1), None);
    assert_eq!(date_plus_days(&d(1, 1, 1), -1), None);
}
