use log_analyzer::analyzer::{
    check_directory_path, check_file_path, check_log_files_found, filter_entries, is_log_file_name,
    LogAnalyzer,
};
use log_analyzer::errors::{AnalyzerError, IoErrorKind};
use log_analyzer::log_level::LogLevel;

fn lines(content: &str) -> Vec<String> {
    content.lines().map(|l| l.to_string()).collect()
}

#[test]
fn test_process_valid_file() {
    let content = "\
2024-01-15 10:00:00 [INFO] app: Application started
2024-01-15 10:00:01 [ERROR] storage: Disk full
";
    let mut analyzer = LogAnalyzer::new();
    let count = analyzer.process_lines("test.log", &lines(content));
    assert_eq!(count, 2);
    assert_eq!(analyzer.entries().len(), 2);
    assert_eq!(analyzer.parse_errors().len(), 0);
}

#[test]
fn test_skip_malformed_lines() {
    let content = "\
2024-01-15 10:00:00 [INFO] app: Valid entry
This line has no timestamp
2024-01-15 10:00:01 [INFO] network: Another valid entry
";
    let mut analyzer = LogAnalyzer::new();
    let count = analyzer.process_lines("test.log", &lines(content));
    assert_eq!(count, 2); // 2 valid entries
    assert_eq!(analyzer.parse_errors().len(), 1); // 1 bad line stored
}

#[test]
fn test_statistics_after_processing() {
    let content = "\
2024-01-15 10:00:00 [ERROR] storage: Disk full
2024-01-15 10:00:01 [INFO] app: Started
";
    let mut analyzer = LogAnalyzer::new();
    analyzer.process_lines("test.log", &lines(content));
    let stats = analyzer.statistics();
    assert_eq!(stats.total_entries, 2);
    assert_eq!(stats.error_count, 1);
}

// ---- further cases ----

#[test]
fn process_lines_skips_blank_lines_and_numbers_from_one() {
    let content = "\
2024-01-15 10:00:00 [INFO] app: one

   \t
broken
2024-01-15 10:00:01 [INFO] app: two
";
    let mut analyzer = LogAnalyzer::new();
    let count = analyzer.process_lines("x.log", &lines(content));
    assert_eq!(count, 2);
    let errors = analyzer.parse_errors();
    assert_eq!(errors.len(), 1);
    assert_eq!(errors[0].line_number, 4);
    assert_eq!(errors[0].file, "x.log");
    assert_eq!(errors[0].content, "broken");
    assert_eq!(analyzer.entries()[1].message, "two");
    assert_eq!(analyzer.entries()[1].source_file, "x.log");
}

#[test]
fn filter_by_level_and_component() {
    let content = "\
2024-01-15 10:00:00 [INFO] Storage: a
2024-01-15 10:00:01 [ERROR] storage: b
2024-01-15 10:00:02 [FATAL] net: c
2024-01-15 10:00:03 [DEBUG] STORAGE: d
";
    let mut analyzer = LogAnalyzer::new();
    analyzer.process_lines("x.log", &lines(content));
    let all = filter_entries(analyzer.entries(), None, None);
    assert_eq!(all.len(), 4);
    let severe = filter_entries(analyzer.entries(), Some(LogLevel::Error), None);
    assert_eq!(severe.iter().map(|e| e.message.as_str()).collect::<Vec<_>>(), vec!["b", "c"]);
    let storage = filter_entries(analyzer.entries(), None, Some("storage"));
    assert_eq!(storage.iter().map(|e| e.message.as_str()).collect::<Vec<_>>(), vec!["a", "b", "d"]);
    let both = filter_entries(analyzer.entries(), Some(LogLevel::Info), Some("STORAGE"));
    assert_eq!(both.iter().map(|e| e.message.as_str()).collect::<Vec<_>>(), vec!["a", "b"]);
}

#[test]
fn log_file_names() {
    assert!(is_log_file_name("server.log"));
    assert!(is_log_file_name("a.b.log"));
    assert!(is_log_file_name("..log"));
    assert!(!is_log_file_name(".log"));
    assert!(!is_log_file_name("server.log.gz"));
    assert!(!is_log_file_name("serverlog"));
    assert!(!is_log_file_name("server.LOG"));
}

#[test]
fn refusals_carry_number_text_and_reason_in_order() {
    let content = "\
nonsense
2024-01-15 10:00:00 [INFO] app: fine

2024-01-15 10:00:00 [LOUD] app: bad level
2024-01-15 10:00:00 [INFO] no colon here
";
    let mut analyzer = LogAnalyzer::new();
    analyzer.process_lines("y.log", &lines(content));
    let errors = analyzer.parse_errors();
    let numbers: Vec<usize> = errors.iter().map(|e| e.line_number).collect();
    assert_eq!(numbers, vec![1, 4, 5]);
    let text = lines(content);
    for e in errors {
        assert!(!e.reason.is_empty());
        assert_eq!(e.content, text[e.line_number - 1]);
    }
    assert_eq!(errors[1].reason, "Invalid log level: unknown log level 'LOUD'");
    assert_eq!(
        errors[2].reason,
        "Missing ':' separator between component and message"
    );
}

#[test]
fn test_handle_missing_file() {
    let result = check_file_path("/nonexistent/path/file.log", false, false);
    assert!(result.is_err());
}

#[test]
fn path_checks_name_the_problem() {
    assert_eq!(
        check_file_path("a.log", false, false),
        Err(AnalyzerError::IoError {
            path: "a.log".to_string(),
            kind: IoErrorKind::NotFound,
            source: "File not found".to_string()
        })
    );
    assert_eq!(
        check_file_path("logs", true, false),
        Err(AnalyzerError::InvalidPath {
            path: "logs".to_string(),
            reason: "Path is not a file".to_string()
        })
    );
    assert_eq!(check_file_path("a.log", true, true), Ok(()));
    assert_eq!(
        check_directory_path("nowhere", false, false),
        Err(AnalyzerError::IoError {
            path: "nowhere".to_string(),
            kind: IoErrorKind::NotFound,
            source: "Directory not found".to_string()
        })
    );
    assert_eq!(
        check_directory_path("a.log", true, false),
        Err(AnalyzerError::InvalidPath {
            path: "a.log".to_string(),
            reason: "Path is not a directory".to_string()
        })
    );
    assert_eq!(check_directory_path("logs", true, true), Ok(()));
}

#[test]
fn directory_without_log_files_is_refused() {
    assert_eq!(
        check_log_files_found("logs", 0),
        Err(AnalyzerError::NoFilesFound { path: "logs".to_string() })
    );
    assert_eq!(check_log_files_found("logs", 2), Ok(()));
}

#[test]
fn lines_cut_inside_a_character_are_stored_as_errors() {
    let content = "\
2024-01-15 10:00:00 [INFO] app: before
2024-01-15 10:23:4é [INFO] a: b
2024-01-15 10:00:01 [INFO] app: after
";
    let mut analyzer = LogAnalyzer::new();
    let count = analyzer.process_lines("z.log", &lines(content));
    assert_eq!(count, 2);
    let errors = analyzer.parse_errors();
    assert_eq!(errors.len(), 1);
    assert_eq!(errors[0].line_number, 2);
    assert_eq!(
        errors[0].reason,
        "Invalid timestamp: DateTime format must be YYYY-MM-DD HH:MM:SS"
    );
}

#[test]
fn lines_read_before_a_failure_are_kept() {
    let content = "\
2024-01-15 10:00:00 [INFO] app: one
oops
";
    let mut analyzer = LogAnalyzer::new();
    let r = analyzer.process_read_lines(
        "r.log",
        &lines(content),
        Some((IoErrorKind::Other, "stream did not contain valid UTF-8".to_string())),
    );
    assert_eq!(
        r,
        Err(AnalyzerError::IoError {
            path: "r.log".to_string(),
            kind: IoErrorKind::Other,
            source: "stream did not contain valid UTF-8".to_string()
        })
    );
    assert_eq!(analyzer.entries().len(), 1);
    assert_eq!(analyzer.parse_errors().len(), 1);
    let ok = analyzer.process_read_lines("s.log", &lines(content), None);
    assert_eq!(ok, Ok(1));
    assert_eq!(analyzer.entries().len(), 2);
    assert_eq!(analyzer.entries()[1].source_file, "s.log");
    assert_eq!(analyzer.parse_errors()[1].file, "s.log");
}
