use simpleice::stamp::{parse_stamp, current_stamp, stamp_of_clock_fields, Stamp};
use simpleice::errors::ValidationError;

fn stamp(y: u16, mo: u8, d: u8, h: u8, mi: u8) -> Stamp {
    Stamp::from_fields(y, mo, d, h, mi).expect("well-formed stamp")
}

#[test]
fn parse_valid_stamp() {
    let st = parse_stamp("2099-01-01 09:00").expect("parses");
    assert_eq!(st, stamp(2099, 1, 1, 9, 0));
}

#[test]
fn parse_format_round_trip() {
    let st = parse_stamp("2024-12-31 23:59").expect("parses");
    assert_eq!(st.format(), "2024-12-31 23:59");
}

#[test]
fn format_pads_with_zeros() {
    let st = stamp(987, 3, 4, 5, 6);
    assert_eq!(st.format(), "0987-03-04 05:06");
}

#[test]
fn parse_rejects_wrong_length() {
    assert_eq!(parse_stamp("2099-01-01"), Err(ValidationError::BadFormat));
    assert_eq!(parse_stamp(""), Err(ValidationError::BadFormat));
    assert_eq!(parse_stamp("2099-01-01 09:00:00"), Err(ValidationError::BadFormat));
}

#[test]
fn parse_rejects_wrong_separators() {
    assert_eq!(parse_stamp("2099/01/01 09:00"), Err(ValidationError::BadFormat));
    assert_eq!(parse_stamp("2099-01-01T09:00"), Err(ValidationError::BadFormat));
    assert_eq!(parse_stamp("2099-01-01 09.00"), Err(ValidationError::BadFormat));
}

#[test]
fn parse_rejects_non_digits() {
    assert_eq!(parse_stamp("209a-01-01 09:00"), Err(ValidationError::BadFormat));
    assert_eq!(parse_stamp("2099-01-01 o9:00"), Err(ValidationError::BadFormat));
}

#[test]
fn parse_rejects_impossible_dates() {
    assert_eq!(parse_stamp("2099-13-01 09:00"), Err(ValidationError::BadFormat));
    assert_eq!(parse_stamp("2099-00-10 09:00"), Err(ValidationError::BadFormat));
    assert_eq!(parse_stamp("2099-04-31 09:00"), Err(ValidationError::BadFormat));
    assert_eq!(parse_stamp("2099-01-01 24:00"), Err(ValidationError::BadFormat));
    assert_eq!(parse_stamp("2099-01-01 09:60"), Err(ValidationError::BadFormat));
}

#[test]
fn parse_handles_leap_years() {
    assert!(parse_stamp("2096-02-29 12:00").is_ok());
    assert_eq!(parse_stamp("2099-02-29 12:00"), Err(ValidationError::BadFormat));
    assert!(parse_stamp("2000-02-29 12:00").is_ok());
    assert_eq!(parse_stamp("2100-02-29 12:00"), Err(ValidationError::BadFormat));
}

#[test]
fn ordering_is_lexicographic() {
    let a = stamp(2024, 6, 15, 12, 30);
    assert!(a.is_before(&stamp(2025, 1, 1, 0, 0)));
    assert!(a.is_before(&stamp(2024, 6, 15, 12, 31)));
    assert!(a.is_before(&stamp(2024, 6, 16, 0, 0)));
    assert!(!a.is_before(&a));
    assert!(!a.is_before(&stamp(2024, 6, 15, 12, 29)));
    assert!(!a.is_before(&stamp(2023, 12, 31, 23, 59)));
}

#[test]
fn from_fields_validates() {
    assert!(Stamp::from_fields(2024, 2, 30, 0, 0).is_none());
    assert!(Stamp::from_fields(2024, 0, 1, 0, 0).is_none());
    assert!(Stamp::from_fields(10000, 1, 1, 0, 0).is_none());
    assert!(Stamp::from_fields(2024, 2, 29, 23, 59).is_some());
}

#[test]
fn clock_fields_validate_exactly() {
    assert_eq!(stamp_of_clock_fields(2024, 2, 29, 23, 59), Some(stamp(2024, 2, 29, 23, 59)));
    assert_eq!(stamp_of_clock_fields(2024, 2, 30, 0, 0), None);
    assert_eq!(stamp_of_clock_fields(-5, 1, 1, 0, 0), None);
    assert_eq!(stamp_of_clock_fields(10000, 1, 1, 0, 0), None);
    assert_eq!(stamp_of_clock_fields(2024, 13, 1, 0, 0), None);
    assert_eq!(stamp_of_clock_fields(2024, 1, 1, 24, 0), None);
    assert_eq!(stamp_of_clock_fields(2024, 1, 1, 0, 60), None);
}

#[test]
fn current_stamp_is_plausible() {
    let now = current_stamp().expect("clock within representable years");
    assert!(now.year >= 2020 && now.year <= 9999);
    assert!((1..=12).contains(&now.month));
    assert!((1..=31).contains(&now.day));
    assert!(now.hour < 24 && now.minute < 60);
}
