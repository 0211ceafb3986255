use log_analyzer::analyzer::{check_file_path, LogAnalyzer};
use log_analyzer::log_level::LogLevel;
use log_analyzer::report::{format_json_report, format_text_report, Percentages};
use log_analyzer::statistics::Statistics;

// ---- Fixture contents ----
fn simple_log() -> Vec<String> {
    "\
2024-01-15 10:00:00 [INFO] app: Application started
2024-01-15 10:00:02 [DEBUG] config: Loaded configuration
2024-01-15 10:00:05 [INFO] network: Listening on port 8080
2024-01-15 10:00:07 [WARN] auth: Token expires soon
2024-01-15 10:00:10 [ERROR] storage: Disk full
"
    .lines()
    .map(|l| l.to_string())
    .collect()
}

fn malformed_log() -> Vec<String> {
    "\
2024-01-15 10:00:00 [INFO] app: Valid entry
This line has no timestamp
2024-13-45 10:00:00 [INFO] app: Impossible date

2024-01-15 10:00:01 [BOGUS] app: Unknown level
2024-01-15 10:00:02 [ERROR] storage: Another valid entry
"
    .lines()
    .map(|l| l.to_string())
    .collect()
}

fn error_rate(stats: &Statistics) -> f64 {
    if stats.total_entries > 0 {
        stats.error_count as f64 / stats.total_entries as f64
    } else {
        0.0
    }
}

fn percent(count: usize, total: usize) -> String {
    let pct = if total > 0 { count as f64 / total as f64 * 100.0 } else { 0.0 };
    format!("{:.1}", pct)
}

fn percentages(stats: &Statistics) -> Percentages {
    let levels = [
        LogLevel::Trace,
        LogLevel::Debug,
        LogLevel::Info,
        LogLevel::Warn,
        LogLevel::Error,
        LogLevel::Fatal,
    ];
    Percentages {
        error_rate_percent: format!("{:.1}", error_rate(stats) * 100.0),
        level_percents: levels
            .iter()
            .map(|l| percent(stats.level_count(*l), stats.total_entries))
            .collect(),
        component_percents: stats
            .entries_by_component
            .iter()
            .map(|(_, n)| percent(*n, stats.total_entries))
            .collect(),
    }
}

#[test]
fn test_process_simple_log_file() {
    let mut analyzer = LogAnalyzer::new();
    let count = analyzer.process_lines("simple.log", &simple_log());
    assert_eq!(count, 5);
    assert_eq!(analyzer.parse_errors().len(), 0);
}

#[test]
fn test_simple_log_statistics() {
    let mut analyzer = LogAnalyzer::new();
    analyzer.process_lines("simple.log", &simple_log());
    let stats = analyzer.statistics();

    assert_eq!(stats.total_entries, 5);
    assert_eq!(stats.error_count, 1);
    assert!((error_rate(&stats) - 0.2).abs() < 1e-9);
}

#[test]
fn test_simple_log_components() {
    let mut analyzer = LogAnalyzer::new();
    analyzer.process_lines("simple.log", &simple_log());
    let stats = analyzer.statistics();

    // Verify known components exist
    assert!(stats.component_count("app") > 0);
    assert!(stats.component_count("network") > 0);
    assert!(stats.component_count("storage") > 0);
}

#[test]
fn test_process_malformed_log() {
    let mut analyzer = LogAnalyzer::new();
    let count = analyzer.process_lines("malformed.log", &malformed_log());

    // 2 valid entries, 3 bad lines
    assert_eq!(count, 2);
    assert_eq!(analyzer.parse_errors().len(), 3);
}

#[test]
fn test_parse_errors_contain_details() {
    let mut analyzer = LogAnalyzer::new();
    analyzer.process_lines("malformed.log", &malformed_log());
    let errors = analyzer.parse_errors();

    // Every error should have a non-empty reason
    for err in errors {
        assert!(!err.reason.is_empty(), "Error reason should not be empty");
        assert!(err.line_number > 0, "Line number should be > 0");
    }
}

#[test]
fn test_missing_file_returns_error() {
    let result = check_file_path("nonexistent_file.log", false, false);
    assert!(result.is_err());
}

#[test]
fn test_multiple_files_accumulate() {
    let mut analyzer = LogAnalyzer::new();
    analyzer.process_lines("simple.log", &simple_log());
    analyzer.process_lines("malformed.log", &malformed_log());

    // simple.log: 5 valid, malformed.log: 2 valid
    assert_eq!(analyzer.entries().len(), 7);
}

// ---- Log level ordering tests ----

#[test]
fn test_log_level_ordering() {
    assert!(LogLevel::Trace < LogLevel::Debug);
    assert!(LogLevel::Warn > LogLevel::Info);
    assert!(LogLevel::Fatal >= LogLevel::Error);
}

// ---- JSON / Text report smoke tests ----

#[test]
fn test_text_report_is_non_empty() {
    let mut analyzer = LogAnalyzer::new();
    analyzer.process_lines("simple.log", &simple_log());
    let stats = analyzer.statistics();
    let report = format_text_report(&stats, analyzer.parse_errors(), &percentages(&stats));
    assert!(report.contains("LOG ANALYSIS REPORT"));
    assert!(report.contains("Total Entries"));
}

#[test]
fn test_json_report_is_valid_looking() {
    let mut analyzer = LogAnalyzer::new();
    analyzer.process_lines("simple.log", &simple_log());
    let stats = analyzer.statistics();
    let rate = format!("{:.3}", error_rate(&stats));
    let json = format_json_report(&stats, analyzer.parse_errors(), &rate);
    assert!(json.trim_start().starts_with('{'));
    assert!(json.trim_end().ends_with('}'));
    assert!(json.contains("total_entries"));
    assert!(json.contains("error_rate"));
}
