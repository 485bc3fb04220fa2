use ais_parquet_optimizer::calendar::{
    day_number, days_from_civil, days_in_month, is_leap_year, next_day, previous_day,
};
use ais_parquet_optimizer::decimal::{decimal_string, zero_padded_string, zero_padded_unsigned_string};
use ais_parquet_optimizer::timestamps::{
    base_dt_slicing_panics, datetime_to_micros, hour_stamp_valid, parse_base_dt_micros, parse_hour_us,
    TimestampError,
};

#[test]
fn epoch_is_day_zero() {
    assert_eq!(days_from_civil(1970, 1, 1), 0);
    assert_eq!(day_number(1970, 1, 1), 0);
}

#[test]
fn civil_day_numbers() {
    assert_eq!(day_number(2024, 10, 20), 20016);
    assert_eq!(day_number(2000, 2, 29), 11016);
    assert_eq!(day_number(1969, 12, 31), -1);
    assert_eq!(days_from_civil(1, 1, 1), -719162);
}

#[test]
fn leap_years() {
    assert!(is_leap_year(2024));
    assert!(is_leap_year(2000));
    assert!(!is_leap_year(1900));
    assert!(!is_leap_year(2023));
    assert_eq!(days_in_month(2024, 2), 29);
    assert_eq!(days_in_month(2023, 2), 28);
    assert_eq!(days_in_month(2024, 4), 30);
    assert_eq!(days_in_month(2024, 13), 31);
}

#[test]
fn next_and_previous_day() {
    assert_eq!(next_day(2024, 2, 28), (2024, 2, 29));
    assert_eq!(next_day(2024, 2, 29), (2024, 3, 1));
    assert_eq!(next_day(2024, 12, 31), (2025, 1, 1));
    assert_eq!(previous_day(2024, 3, 1), (2024, 2, 29));
    assert_eq!(previous_day(2024, 1, 1), (2023, 12, 31));
    assert_eq!(previous_day(2024, 10, 20), (2024, 10, 19));
}

#[test]
fn next_day_is_one_day_later() {
    let (y, m, d) = next_day(2023, 12, 31);
    assert_eq!(day_number(y, m, d), day_number(2023, 12, 31) + 1);
    let (y, m, d) = previous_day(y, m, d);
    assert_eq!((y, m, d), (2023, 12, 31));
}

#[test]
fn decimal_text() {
    assert_eq!(decimal_string(0), "0");
    assert_eq!(decimal_string(-42), "-42");
    assert_eq!(decimal_string(i64::MIN), "-9223372036854775808");
    assert_eq!(zero_padded_string(7, 2), "07");
    assert_eq!(zero_padded_string(2024, 4), "2024");
    assert_eq!(zero_padded_string(-5, 4), "-005");
    assert_eq!(zero_padded_string(123456, 5), "123456");
}

#[test]
fn datetime_micros() {
    assert_eq!(datetime_to_micros(2024, 1, 1, 0, 0, 0), 1704067200000000);
    assert_eq!(datetime_to_micros(1969, 12, 31, 23, 59, 59), -1000000);
}

#[test]
fn base_datetime_parsing() {
    assert_eq!(parse_base_dt_micros("2024-01-01T00:00:00"), Ok(1704067200000000));
    assert_eq!(parse_base_dt_micros("  2024-03-15 12:34:56 "), Ok(1710506096000000));
    assert_eq!(parse_base_dt_micros("2024-03-15T12:34:56+02"), Ok(1710498896000000));
    assert_eq!(parse_base_dt_micros("2024-03-15T12:34:56-05"), Ok(1710524096000000));
    assert_eq!(parse_base_dt_micros("2024-03-15T12:34:56Z"), Ok(1710506096000000));
}

#[test]
fn base_datetime_errors() {
    assert_eq!(parse_base_dt_micros("2024-03-15"), Err(TimestampError::TooShort));
    assert_eq!(parse_base_dt_micros("2024-0x-15T12:34:56"), Err(TimestampError::InvalidNumber));
    assert_eq!(parse_base_dt_micros("2024-03-15T12:34:56+xx"), Err(TimestampError::InvalidNumber));
}

#[test]
fn slicing_inside_a_character_is_detected() {
    assert!(!base_dt_slicing_panics("2024-01-01T00:00:00"));
    assert!(base_dt_slicing_panics("2024\u{e9}01-01T00:00:00"));
    assert!(!base_dt_slicing_panics("short"));
}

#[test]
fn hour_bounds() {
    assert!(hour_stamp_valid("2024-10-20 04"));
    assert!(!hour_stamp_valid("2024-10-2"));
    assert_eq!(parse_hour_us("2024-10-20 04"), 1729396800000000);
    assert_eq!(parse_hour_us("2024-10-20 05") - parse_hour_us("2024-10-20 04"), 3_600_000_000);
}

#[test]
fn unsigned_zero_padding() {
    assert_eq!(zero_padded_unsigned_string(42, 5), "00042");
    assert_eq!(zero_padded_unsigned_string(u64::MAX, 5), "18446744073709551615");
    assert_eq!(zero_padded_unsigned_string(0, 0), "0");
}

#[test]
fn decimal_text_reads_back() {
    use_parse_roundtrip(0);
    use_parse_roundtrip(-7);
    use_parse_roundtrip(i64::MAX);
    use_parse_roundtrip(i64::MIN);
}

fn use_parse_roundtrip(v: i64) {
    assert_eq!(ais_parquet_optimizer::ingest::parse_int_field(&decimal_string(v)), Some(v));
}

#[test]
fn zero_padded_hour_bounds_read_back() {
    for &(y, m, d, h) in &[(2024i64, 10i32, 20i32, 4i64), (1970, 1, 1, 0), (7, 2, 9, 23), (9999, 12, 31, 23)] {
        let text = format!("{:04}-{:02}-{:02} {:02}", y, m, d, h);
        assert_eq!(parse_hour_us(&text), (days_from_civil(y, m, d) * 86_400 + h * 3_600) * 1_000_000);
    }
}
