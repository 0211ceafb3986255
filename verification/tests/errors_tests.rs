use log_analyzer::errors::{AnalyzerError, IoErrorKind};

#[test]
fn io_error_message_names_path_and_cause() {
    let e = AnalyzerError::IoError {
        path: "/nonexistent/path/file.log".to_string(),
        kind: IoErrorKind::NotFound,
        source: "File not found".to_string(),
    };
    assert_eq!(
        e.message(),
        "IO error reading '/nonexistent/path/file.log': File not found"
    );
}

#[test]
fn no_files_found_message() {
    let e = AnalyzerError::NoFilesFound { path: "logs".to_string() };
    assert_eq!(e.message(), "No .log files found in 'logs'");
}

#[test]
fn invalid_path_message() {
    let e = AnalyzerError::InvalidPath {
        path: "notes.txt".to_string(),
        reason: "Path is not a directory".to_string(),
    };
    assert_eq!(e.message(), "Invalid path 'notes.txt': Path is not a directory");
}
