use log_analyzer::analyzer::LogAnalyzer;
use log_analyzer::report::{format_json_report, format_number, format_text_report, Percentages};

#[test]
fn format_number_groups_digits() {
    assert_eq!(format_number(0), "0");
    assert_eq!(format_number(999), "999");
    assert_eq!(format_number(1000), "1,000");
    assert_eq!(format_number(1234567), "1,234,567");
    assert_eq!(format_number(100000), "100,000");
}

fn sample() -> LogAnalyzer {
    let lines: Vec<String> = "\
2024-01-15 10:00:00 [INFO] app: Application started
2024-01-15 10:00:02 [DEBUG] config: Loaded configuration
2024-01-15 10:00:05 [INFO] network: Listening
2024-01-15 10:00:07 [WARN] auth: Token expires soon
2024-01-15 10:00:10 [ERROR] storage: Disk full
2024-01-15 10:00:11 [INFO] network: Accepted
"
    .lines()
    .map(|l| l.to_string())
    .collect();
    let mut a = LogAnalyzer::new();
    a.process_lines("s.log", &lines);
    a
}

#[test]
fn text_report_exact() {
    let a = sample();
    let stats = a.statistics();
    let pct = Percentages {
        error_rate_percent: "16.7".to_string(),
        level_percents: vec!["0.0", "16.7", "50.0", "16.7", "16.7", "0.0"]
            .into_iter()
            .map(|s| s.to_string())
            .collect(),
        component_percents: vec!["16.7", "16.7", "33.3", "16.7", "16.7"]
            .into_iter()
            .map(|s| s.to_string())
            .collect(),
    };
    let report = format_text_report(&stats, a.parse_errors(), &pct);
    let expected = "\
================== LOG ANALYSIS REPORT ==================
Period: 2024-01-15 10:00:00 to 2024-01-15 10:00:11

SUMMARY
-------
Total Entries:    6
Error Rate:       16.7%
Peak Hour:        10:00 (6 entries)
Most Active:      network (2 entries)

BY LOG LEVEL
------------
TRACE           0   (0.0%)
DEBUG           1   (16.7%)
INFO            3   (50.0%)
WARN            1   (16.7%)
ERROR           1   (16.7%)
FATAL           0   (0.0%)

BY COMPONENT
------------
network               2   (33.3%)
app                   1   (16.7%)
config                1   (16.7%)
auth                  1   (16.7%)
storage               1   (16.7%)

Parse Errors: 0 lines skipped
=========================================================
";
    assert_eq!(report, expected);
}

#[test]
fn json_report_exact() {
    let a = sample();
    let stats = a.statistics();
    let json = format_json_report(&stats, a.parse_errors(), "0.167");
    let expected = "\
{
  \"total_entries\": 6,
  \"error_rate\": 0.167,
  \"peak_hour\": 10,
  \"most_active_component\": \"network\",
  \"entries_by_level\": {
    \"TRACE\": 0,
    \"DEBUG\": 1,
    \"INFO\": 3,
    \"WARN\": 1,
    \"ERROR\": 1,
    \"FATAL\": 0
  },
  \"entries_by_component\": {
    \"network\": 2,
    \"app\": 1,
    \"config\": 1,
    \"auth\": 1,
    \"storage\": 1
  },
  \"period\": {
    \"start\": \"2024-01-15 10:00:00\",
    \"end\": \"2024-01-15 10:00:11\"
  },
  \"parse_errors\": 0
}
";
    assert_eq!(json, expected);
}

#[test]
fn reports_without_entries() {
    let a = LogAnalyzer::new();
    let stats = a.statistics();
    let pct = Percentages {
        error_rate_percent: "0.0".to_string(),
        level_percents: vec!["0.0".to_string(); 6],
        component_percents: vec![],
    };
    let text = format_text_report(&stats, a.parse_errors(), &pct);
    assert!(text.contains("Period: (no entries)\n"));
    assert!(text.contains("Peak Hour:        (none)\n"));
    assert!(text.contains("Most Active:      (none)\n"));
    let json = format_json_report(&stats, a.parse_errors(), "0.000");
    assert!(json.contains("  \"peak_hour\": null,\n"));
    assert!(json.contains("  \"entries_by_component\": {\n\n  },\n"));
    assert!(json.contains("    \"start\": null,\n    \"end\": null\n"));
}

#[test]
fn json_report_escapes_component_names() {
    let lines: Vec<String> = vec![
        "2024-01-15 10:00:00 [INFO] a\"b: quoted".to_string(),
        "2024-01-15 10:00:01 [INFO] a\"b: again".to_string(),
        "2024-01-15 10:00:02 [INFO] c\\d\te: tab".to_string(),
    ];
    let mut a = LogAnalyzer::new();
    a.process_lines("j.log", &lines);
    let stats = a.statistics();
    let json = format_json_report(&stats, a.parse_errors(), "0.000");
    assert!(json.contains("  \"most_active_component\": \"a\\\"b\",\n"));
    assert!(json.contains("    \"a\\\"b\": 2,\n    \"c\\\\d\\te\": 1\n"));
    let control: Vec<String> =
        vec!["2024-01-15 10:00:00 [INFO] x\u{1}y: m".to_string()];
    let mut b = LogAnalyzer::new();
    b.process_lines("k.log", &control);
    let json = format_json_report(&b.statistics(), b.parse_errors(), "0.000");
    assert!(json.contains("    \"x\\u0001y\": 1\n"));
}
