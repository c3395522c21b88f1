use vverdad::time::parse::{
    iso_date, split_first_space, days_in_month, extract_time_system, is_valid_date, month_from_name, parse_i32, parse_u32, spice_date, split_epoch,
    time_fields, TimeSystem,
};

#[test]
fn suffix_names_the_time_system() {
    assert_eq!(extract_time_system("2030-12-12 UTC"), Some(("2030-12-12".to_string(), TimeSystem::Utc)));
    assert_eq!(extract_time_system("12-DEC-2030 tdb"), Some(("12-DEC-2030".to_string(), TimeSystem::Tdb)));
    assert_eq!(extract_time_system("x Tt"), Some(("x".to_string(), TimeSystem::Tt)));
    assert_eq!(extract_time_system("x TAI"), Some(("x".to_string(), TimeSystem::Tai)));
    assert_eq!(extract_time_system("100 N"), None);
    assert_eq!(extract_time_system("2030-12-12"), None);
    assert_eq!(split_epoch("  2030-06-15  12:00:00 TDB  "), Some(("2030-06-15  12:00:00".to_string(), TimeSystem::Tdb)));
}

#[test]
fn month_lengths_and_dates() {
    assert_eq!(days_in_month(2024, 2), 29);
    assert_eq!(days_in_month(2023, 2), 28);
    assert_eq!(days_in_month(1900, 2), 28);
    assert_eq!(days_in_month(2000, 2), 29);
    assert_eq!(days_in_month(2030, 4), 30);
    assert_eq!(days_in_month(2030, 12), 31);
    assert_eq!(days_in_month(2030, 13), 0);
    assert!(is_valid_date(2024, 2, 29));
    assert!(!is_valid_date(2023, 2, 29));
    assert!(!is_valid_date(2030, 2, 30));
    assert!(!is_valid_date(2030, 0, 1));
}

#[test]
fn month_names_in_any_case() {
    assert_eq!(month_from_name("DEC"), Some(12));
    assert_eq!(month_from_name("jun"), Some(6));
    assert_eq!(month_from_name("Sep"), Some(9));
    assert_eq!(month_from_name("JUNE"), None);
}

#[test]
fn spice_dates() {
    assert_eq!(spice_date("12-DEC-2030"), Some((2030, 12, 12)));
    assert_eq!(spice_date("2030-JUN-15"), Some((2030, 6, 15)));
    assert_eq!(spice_date("30-FEB-2030"), None);
    assert_eq!(spice_date("2030-12-12"), None);
    assert_eq!(spice_date("123-DEC-2030"), None);
}

#[test]
fn time_of_day_fields() {
    assert_eq!(time_fields("12:30:45.5"), Some((12, 30, Some("45.5".to_string()))));
    assert_eq!(time_fields("00:00"), Some((0, 0, None)));
    assert_eq!(time_fields("24:00:00"), None);
    assert_eq!(time_fields("12:60"), None);
    assert_eq!(time_fields("12"), None);
}

#[test]
fn integer_texts() {
    assert_eq!(parse_u32("+15"), Some(15));
    assert_eq!(parse_u32("4294967296"), None);
    assert_eq!(parse_i32("-2147483648"), Some(i32::MIN));
    assert_eq!(parse_i32("2147483648"), None);
    assert_eq!(parse_i32("+-1"), None);
}

fn leap(year: i32, month: u32, day: u32) -> Option<f64> {
    vverdad::time::leap::tai_utc_offset(year, month, day).map(|s| s as f64)
}

#[test]
fn test_tai_utc_offset_modern() {
    assert_eq!(leap(2024, 1, 1), Some(37.0));
    assert_eq!(leap(2030, 6, 15), Some(37.0));
}

#[test]
fn test_tai_utc_offset_historical() {
    assert_eq!(leap(1972, 1, 1), Some(10.0));
    assert_eq!(leap(1972, 7, 1), Some(11.0));
    assert_eq!(leap(1971, 12, 31), None);
}

#[test]
fn test_tai_utc_offset_boundary() {
    assert_eq!(leap(2016, 12, 31), Some(36.0));
    assert_eq!(leap(2017, 1, 1), Some(37.0));
}

#[test]
fn leap_offsets_between_entries() {
    assert_eq!(leap(1985, 6, 30), Some(22.0));
    assert_eq!(leap(1985, 7, 1), Some(23.0));
    assert_eq!(leap(1999, 12, 31), Some(32.0));
}

#[test]
fn iso_dates_and_times() {
    assert_eq!(iso_date("2030-12-12T00:00:00.000"), Some((2030, 12, 12, Some("00:00:00.000".to_string()))));
    assert_eq!(iso_date("2030-12-12 06:30:00"), Some((2030, 12, 12, Some("06:30:00".to_string()))));
    assert_eq!(iso_date("2030-12-12"), Some((2030, 12, 12, None)));
    assert_eq!(iso_date("2030-02-30"), None);
    assert_eq!(iso_date("2031-02-29"), None);
    assert_eq!(iso_date("2028-02-29"), Some((2028, 2, 29, None)));
    assert_eq!(iso_date("12-DEC-2030"), None);
    assert_eq!(iso_date("2030-12-12X00:00"), None);
    assert_eq!(iso_date("2030-1-12"), None);
}

#[test]
fn spice_texts_split_at_the_first_space() {
    assert_eq!(split_first_space("2030-JUN-15 12:00:00.000"), ("2030-JUN-15".to_string(), Some("12:00:00.000".to_string())));
    assert_eq!(split_first_space("12-DEC-2030"), ("12-DEC-2030".to_string(), None));
    assert_eq!(split_first_space("a b c"), ("a".to_string(), Some("b c".to_string())));
}
