use log_analyzer::datetime::DateTime;

fn parse(s: &str) -> Result<DateTime, String> {
    DateTime::from_str(s)
}

#[test]
fn test_parse_valid_datetime() {
    let dt: DateTime = parse("2024-01-15 10:23:45").unwrap();
    assert_eq!(dt.year, 2024);
    assert_eq!(dt.month, 1);
    assert_eq!(dt.day, 15);
    assert_eq!(dt.hour, 10);
    assert_eq!(dt.minute, 23);
    assert_eq!(dt.second, 45);
}

#[test]
fn test_reject_invalid_month_zero() {
    let result: Result<DateTime, _> = parse("2024-00-15 10:23:45");
    assert!(result.is_err());
    assert!(result.unwrap_err().contains("Month"));
}

#[test]
fn test_reject_invalid_month_thirteen() {
    let result: Result<DateTime, _> = parse("2024-13-15 10:23:45");
    assert!(result.is_err());
}

#[test]
fn test_reject_invalid_hour_24() {
    let result: Result<DateTime, _> = parse("2024-01-15 24:00:00");
    assert!(result.is_err());
    assert!(result.unwrap_err().contains("Hour"));
}

#[test]
fn test_reject_invalid_hour_25() {
    let result: Result<DateTime, _> = parse("2024-01-15 25:00:00");
    assert!(result.is_err());
}

#[test]
fn test_compare_datetimes() {
    let earlier: DateTime = parse("2024-01-15 10:00:00").unwrap();
    let later: DateTime = parse("2024-01-15 11:00:00").unwrap();
    assert!(earlier < later);
    assert!(later > earlier);
    assert_eq!(earlier, earlier.clone());
}

#[test]
fn test_display_format() {
    let dt: DateTime = parse("2024-01-15 10:23:45").unwrap();
    assert_eq!(dt.to_string(), "2024-01-15 10:23:45");
}

// ---- further cases ----

#[test]
fn datetime_error_messages() {
    assert_eq!(
        parse("2024-01-15 10:23").unwrap_err(),
        "DateTime string must be 19 characters, got 16"
    );
    assert_eq!(
        parse("2024/01/15 10:23:45").unwrap_err(),
        "DateTime format must be YYYY-MM-DD HH:MM:SS"
    );
    assert_eq!(
        parse("20x4-01-15 10:23:45").unwrap_err(),
        "Year '20x4' is not a valid number"
    );
    assert_eq!(
        parse("2024-01-1a 10:23:45").unwrap_err(),
        "Day '1a' is not a valid number"
    );
    assert_eq!(parse("1969-01-15 10:23:45").unwrap_err(), "Year 1969 out of range (1970-9999)");
    assert_eq!(parse("2024-00-15 10:23:45").unwrap_err(), "Month 0 out of range (1-12)");
    assert_eq!(parse("2024-01-32 10:23:45").unwrap_err(), "Day 32 out of range (1-31)");
    assert_eq!(parse("2024-01-15 24:00:00").unwrap_err(), "Hour 24 out of range (0-23)");
    assert_eq!(parse("2024-01-15 10:60:00").unwrap_err(), "Minute 60 out of range (0-59)");
    assert_eq!(parse("2024-01-15 10:00:60").unwrap_err(), "Second 60 out of range (0-59)");
}

#[test]
fn datetime_trims_whitespace() {
    let dt = parse("  2024-01-15 10:23:45\t\n").unwrap();
    assert_eq!(dt.to_string(), "2024-01-15 10:23:45");
}

#[test]
fn datetime_fields_take_digits_only() {
    assert_eq!(parse("2024-+1-15 10:23:45").unwrap_err(), "Month '+1' is not a valid number");
    assert_eq!(parse("+024-01-15 10:23:45").unwrap_err(), "Year '+024' is not a valid number");
    assert!(parse("2024-+-15 10:23:45").is_err());
}

#[test]
fn datetime_multibyte_field_is_rejected() {
    // 'é' takes two bytes: the text is still 19 bytes long.
    assert_eq!(parse("2024-é-15 10:23:45").unwrap_err(), "Month 'é' is not a valid number");
}

#[test]
fn datetime_display_roundtrip() {
    let dt = DateTime { year: 1999, month: 12, day: 31, hour: 23, minute: 59, second: 0 };
    assert_eq!(dt.to_string(), "1999-12-31 23:59:00");
    assert_eq!(parse(&dt.to_string()).unwrap(), dt);
}

#[test]
fn datetime_display_pads_fields() {
    let dt = DateTime { year: 7, month: 1, day: 2, hour: 3, minute: 4, second: 5 };
    assert_eq!(dt.to_string(), "0007-01-02 03:04:05");
}

#[test]
fn datetime_ordering_key() {
    let dt = parse("1970-01-01 00:00:00").unwrap();
    assert_eq!(dt.to_seconds(), 1970 * 31_536_000 + 2_592_000 + 86_400);
    // Months count as 30 days: January 31st and February 1st coincide.
    let a = parse("2024-01-31 00:00:00").unwrap();
    let b = parse("2024-02-01 00:00:00").unwrap();
    assert_eq!(a.to_seconds(), b.to_seconds());
    assert!(!(a < b) && !(a > b));
}

#[test]
fn datetime_separator_inside_a_character_is_refused() {
    // Byte 4 starts the two-byte 'é', so no '-' stands there.
    assert_eq!(
        parse("2024é01-15 10:23:4").unwrap_err(),
        "DateTime format must be YYYY-MM-DD HH:MM:SS"
    );
    // Here byte 4 falls inside the 'é' of "202é".
    assert_eq!(
        parse("202é-01-15 10:23:4").unwrap_err(),
        "DateTime format must be YYYY-MM-DD HH:MM:SS"
    );
}

#[test]
fn datetime_parsed_text_renders_back() {
    let dt = parse("  2024-03-09 07:05:00 ").unwrap();
    assert_eq!(dt.to_string(), "2024-03-09 07:05:00");
    assert_eq!(dt, DateTime { year: 2024, month: 3, day: 9, hour: 7, minute: 5, second: 0 });
}
