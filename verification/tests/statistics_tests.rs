use log_analyzer::datetime::DateTime;
use log_analyzer::log_level::LogLevel;
use log_analyzer::parser::LogEntry;
use log_analyzer::statistics::Statistics;

fn make_entry(ts: &str, level: LogLevel, component: &str) -> LogEntry {
    LogEntry {
        timestamp: DateTime::from_str(ts).unwrap(),
        level,
        component: component.to_string(),
        message: "test".to_string(),
        source_file: "test.log".to_string(),
    }
}

/// The share of entries at `Error` or `Fatal`, as the report computes it.
fn error_rate(stats: &Statistics) -> f64 {
    if stats.total_entries > 0 {
        stats.error_count as f64 / stats.total_entries as f64
    } else {
        0.0
    }
}

#[test]
fn test_empty_input() {
    let stats = Statistics::from_entries(&[]);
    assert_eq!(stats.total_entries, 0);
    assert_eq!(error_rate(&stats), 0.0);
    assert!(stats.most_active_component.is_none());
    assert!(stats.peak_hour.is_none());
}

#[test]
fn test_basic_statistics() {
    let entries = vec![
        make_entry("2024-01-15 10:00:00", LogLevel::Info, "network"),
        make_entry("2024-01-15 10:00:01", LogLevel::Error, "storage"),
        make_entry("2024-01-15 10:00:02", LogLevel::Fatal, "kernel"),
        make_entry("2024-01-15 11:00:00", LogLevel::Info, "network"),
        make_entry("2024-01-15 11:00:01", LogLevel::Info, "network"),
    ];

    let stats = Statistics::from_entries(&entries);
    assert_eq!(stats.total_entries, 5);
    assert_eq!(stats.error_count, 2);
    assert!((error_rate(&stats) - 0.4).abs() < 1e-9);
    assert_eq!(stats.most_active_component, Some("network".to_string()));
}

#[test]
fn test_correct_percentages() {
    let entries = vec![
        make_entry("2024-01-15 10:00:00", LogLevel::Error, "a"),
        make_entry("2024-01-15 10:00:01", LogLevel::Error, "a"),
        make_entry("2024-01-15 10:00:02", LogLevel::Info, "a"),
        make_entry("2024-01-15 10:00:03", LogLevel::Info, "a"),
    ];
    let stats = Statistics::from_entries(&entries);
    assert!((error_rate(&stats) - 0.5).abs() < 1e-9);
}

#[test]
fn test_peak_hour() {
    let entries = vec![
        make_entry("2024-01-15 10:00:00", LogLevel::Info, "a"),
        make_entry("2024-01-15 10:00:01", LogLevel::Info, "a"),
        make_entry("2024-01-15 11:00:00", LogLevel::Info, "a"),
    ];
    let stats = Statistics::from_entries(&entries);
    assert_eq!(stats.peak_hour, Some(10));
}

#[test]
fn test_first_and_last_entry() {
    let entries = vec![
        make_entry("2024-01-15 12:00:00", LogLevel::Info, "a"),
        make_entry("2024-01-15 08:00:00", LogLevel::Info, "a"),
        make_entry("2024-01-15 20:00:00", LogLevel::Info, "a"),
    ];
    let stats = Statistics::from_entries(&entries);
    assert_eq!(stats.first_entry.unwrap().to_string(), "2024-01-15 08:00:00");
    assert_eq!(stats.last_entry.unwrap().to_string(), "2024-01-15 20:00:00");
}

#[test]
fn test_statistics_empty_gives_zero_error_rate() {
    let stats = Statistics::from_entries(&[]);
    assert_eq!(error_rate(&stats), 0.0);
    assert!(stats.first_entry.is_none());
    assert!(stats.last_entry.is_none());
}

// ---- further cases ----

#[test]
fn statistics_counts_in_order_of_appearance() {
    let entries = vec![
        make_entry("2024-01-15 09:00:00", LogLevel::Warn, "db"),
        make_entry("2024-01-15 10:00:00", LogLevel::Info, "web"),
        make_entry("2024-01-15 09:30:00", LogLevel::Warn, "db"),
        make_entry("2024-01-15 10:30:00", LogLevel::Debug, "cache"),
    ];
    let stats = Statistics::from_entries(&entries);
    assert_eq!(
        stats.entries_by_component,
        vec![("db".to_string(), 2), ("web".to_string(), 1), ("cache".to_string(), 1)]
    );
    assert_eq!(stats.entries_by_level, vec![(LogLevel::Warn, 2), (LogLevel::Info, 1), (LogLevel::Debug, 1)]);
    assert_eq!(stats.entries_by_hour, vec![(9, 2), (10, 2)]);
    assert_eq!(stats.level_count(LogLevel::Warn), 2);
    assert_eq!(stats.level_count(LogLevel::Fatal), 0);
    assert_eq!(stats.component_count("web"), 1);
    assert_eq!(stats.component_count("nope"), 0);
    assert_eq!(stats.hour_count(9), 2);
    assert_eq!(stats.hour_count(23), 0);
    assert_eq!(stats.error_count, 0);
}

#[test]
fn statistics_ties_pick_first_appearance() {
    let entries = vec![
        make_entry("2024-01-15 11:00:00", LogLevel::Info, "b"),
        make_entry("2024-01-15 10:00:00", LogLevel::Info, "a"),
    ];
    let stats = Statistics::from_entries(&entries);
    assert_eq!(stats.most_active_component, Some("b".to_string()));
    assert_eq!(stats.peak_hour, Some(11));
}

#[test]
fn statistics_equal_timestamps_keep_first() {
    // January 31st and February 1st order equal: the first seen is kept.
    let entries = vec![
        make_entry("2024-02-01 00:00:00", LogLevel::Info, "a"),
        make_entry("2024-01-31 00:00:00", LogLevel::Info, "a"),
    ];
    let stats = Statistics::from_entries(&entries);
    assert_eq!(stats.first_entry.unwrap().to_string(), "2024-02-01 00:00:00");
    assert_eq!(stats.last_entry.unwrap().to_string(), "2024-02-01 00:00:00");
}

#[test]
fn count_lists_name_each_key_once() {
    let entries = vec![
        make_entry("2024-01-15 10:00:00", LogLevel::Info, "app"),
        make_entry("2024-01-15 11:00:00", LogLevel::Warn, "db"),
        make_entry("2024-01-15 10:30:00", LogLevel::Info, "app"),
        make_entry("2024-01-15 11:30:00", LogLevel::Info, "db"),
    ];
    let stats = Statistics::from_entries(&entries);
    assert_eq!(
        stats.entries_by_component,
        vec![("app".to_string(), 2), ("db".to_string(), 2)]
    );
    assert_eq!(stats.entries_by_hour, vec![(10, 2), (11, 2)]);
    assert_eq!(stats.entries_by_level, vec![(LogLevel::Info, 3), (LogLevel::Warn, 1)]);
}
