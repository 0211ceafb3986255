use log_analyzer::log_level::LogLevel;
use log_analyzer::parser::parse_log_line;

fn dummy_path() -> &'static str {
    "test.log"
}

#[test]
fn test_parse_valid_line() {
    let line = "2024-01-15 10:23:45 [ERROR] storage: Failed to mount filesystem";
    let entry = parse_log_line(line, dummy_path(), 1).unwrap();
    assert_eq!(entry.level, LogLevel::Error);
    assert_eq!(entry.component, "storage");
    assert_eq!(entry.message, "Failed to mount filesystem");
    assert_eq!(entry.timestamp.year, 2024);
}

#[test]
fn test_parse_all_levels() {
    let levels = ["TRACE", "DEBUG", "INFO", "WARN", "ERROR", "FATAL"];
    for lvl in &levels {
        let line = format!("2024-01-15 10:00:00 [{}] app: test message", lvl);
        let entry = parse_log_line(&line, dummy_path(), 1).unwrap();
        assert_eq!(entry.level.to_string(), *lvl);
    }
}

#[test]
fn test_handle_extra_whitespace() {
    // Extra spaces around component / message
    let line = "2024-01-15 10:23:45 [INFO]  network :  Connection established";
    let entry = parse_log_line(line, dummy_path(), 1).unwrap();
    assert_eq!(entry.component, "network");
    assert_eq!(entry.message, "Connection established");
}

#[test]
fn test_reject_no_timestamp() {
    let line = "This line has no timestamp";
    assert!(parse_log_line(line, dummy_path(), 1).is_err());
}

#[test]
fn test_reject_invalid_level() {
    let line = "2024-01-15 10:00:00 [UNKNOWN] bad: Invalid level";
    let err = parse_log_line(line, dummy_path(), 1).unwrap_err();
    assert!(err.reason.contains("log level"));
}

#[test]
fn test_reject_missing_colon() {
    let line = "2024-01-15 10:00:00 [INFO] component_without_colon";
    assert!(parse_log_line(line, dummy_path(), 1).is_err());
}

#[test]
fn test_error_contains_line_number() {
    let line = "garbage";
    let err = parse_log_line(line, dummy_path(), 42).unwrap_err();
    assert_eq!(err.line_number, 42);
}

// ---- further cases ----

fn reason(line: &str) -> String {
    parse_log_line(line, dummy_path(), 7).unwrap_err().reason
}

#[test]
fn parse_error_reasons() {
    assert_eq!(reason("   "), "Empty line");
    assert_eq!(reason("2024-01-15 10:00"), "Line too short to contain a timestamp");
    assert_eq!(
        reason("2024-01-15 10:00:00 INFO app: x"),
        "Expected '[' after timestamp for log level"
    );
    assert_eq!(reason("2024-01-15 10:00:00 [INFO app: x"), "Missing closing ']' for log level");
    assert_eq!(
        reason("2024-01-15 10:00:00 [LOUD] app: x"),
        "Invalid log level: unknown log level 'LOUD'"
    );
    assert_eq!(
        reason("2024-01-15 10:00:00 [INFO] app x"),
        "Missing ':' separator between component and message"
    );
    assert_eq!(reason("2024-01-15 10:00:00 [INFO]  : x"), "Component name is empty");
    assert_eq!(
        reason("2024-13-15 10:00:00 [INFO] app: x"),
        "Invalid timestamp: Month 13 out of range (1-12)"
    );
}

#[test]
fn parse_error_records_source() {
    let err = parse_log_line("  garbage line  ", "server.log", 3).unwrap_err();
    assert_eq!(err.file, "server.log");
    assert_eq!(err.line_number, 3);
    assert_eq!(err.content, "  garbage line  ");
    assert_eq!(
        err.message(),
        "Parse error in 'server.log' at line 3: Line too short to contain a timestamp \u{2014} original: '  garbage line  '"
    );
}

#[test]
fn parse_level_is_case_insensitive() {
    let entry = parse_log_line("2024-01-15 10:00:00 [wArN] db: slow query", "a.log", 1).unwrap();
    assert_eq!(entry.level, LogLevel::Warn);
    assert_eq!(entry.source_file, "a.log");
}

#[test]
fn parse_message_keeps_later_colons() {
    let entry = parse_log_line("2024-01-15 10:00:00 [INFO] http: GET /a: 200", "a.log", 1).unwrap();
    assert_eq!(entry.component, "http");
    assert_eq!(entry.message, "GET /a: 200");
}

#[test]
fn parse_empty_message() {
    let entry = parse_log_line("2024-01-15 10:00:00 [INFO] app:", "a.log", 1).unwrap();
    assert_eq!(entry.message, "");
}

#[test]
fn parse_timestamp_cut_inside_a_character() {
    // Byte 19 falls inside the two-byte 'é': the line is refused with a reason.
    let err = parse_log_line("2024-01-15 10:23:4é [INFO] a: b", "a.log", 3).unwrap_err();
    assert_eq!(err.reason, "Invalid timestamp: DateTime format must be YYYY-MM-DD HH:MM:SS");
    assert_eq!(err.line_number, 3);
    assert_eq!(err.content, "2024-01-15 10:23:4é [INFO] a: b");
    // A separator inside a character is a format error too.
    let err = parse_log_line("2024é01-15 10:23:45 [INFO] a: b", "a.log", 1).unwrap_err();
    assert_eq!(err.reason, "Invalid timestamp: DateTime format must be YYYY-MM-DD HH:MM:SS");
    assert!(parse_log_line("2024-01-15 10:00:00 [INFO] app: x", "a.log", 1).is_ok());
}

#[test]
fn log_level_parse_and_names() {
    assert_eq!(LogLevel::from_str("fatal").unwrap(), LogLevel::Fatal);
    assert_eq!(LogLevel::from_str("Trace").unwrap(), LogLevel::Trace);
    assert_eq!(LogLevel::from_str("verbose").unwrap_err(), "unknown log level 'verbose'");
    assert_eq!(LogLevel::Info.as_str(), "INFO");
    assert_eq!(LogLevel::Debug.rank(), 1);
}

#[test]
fn log_level_parse_through_from_str_trait() {
    assert_eq!("wArN".parse::<LogLevel>().unwrap(), LogLevel::Warn);
    assert_eq!("ERROR".parse::<LogLevel>(), "error".parse::<LogLevel>());
    assert_eq!(
        "warning".parse::<LogLevel>().unwrap_err(),
        "unknown log level 'warning'"
    );
}

#[test]
fn parse_line_parts_are_trimmed_and_split_at_first_separators() {
    let e = parse_log_line(
        "  2024-01-15 10:00:00\t [warn]  a b :x: y  ",
        "p.log",
        9,
    )
    .unwrap();
    assert_eq!(e.level, LogLevel::Warn);
    assert_eq!(e.component, "a b");
    assert_eq!(e.message, "x: y");
    assert_eq!(e.source_file, "p.log");
    // A blank component part is refused.
    let err = parse_log_line("2024-01-15 10:00:00 [INFO]   : m", "p.log", 1).unwrap_err();
    assert_eq!(err.reason, "Component name is empty");
}
