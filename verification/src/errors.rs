//! Errors reported while analysing files and single log lines.

use vstd::prelude::*;
use crate::text::{push_decimal, push_str, string_from_chars, decimal};

verus! {

/// The kind of an I/O failure: a path that does not exist, or anything else.
#[derive(Clone, Copy, Debug, PartialEq, Eq, Structural)]
pub enum IoErrorKind {
    NotFound,
    Other,
}

/// Why a file or directory could not be analysed. Paths are kept as the text
/// they display as, and an I/O failure as its kind with the text of the
/// system's message.
#[derive(Debug, PartialEq, Eq)]
pub enum AnalyzerError {
    IoError { path: String, kind: IoErrorKind, source: String },
    NoFilesFound { path: String },
    InvalidPath { path: String, reason: String },
}

impl AnalyzerError {
    /// The one-line description of the error.
    pub open spec fn message_spec(self) -> Seq<char> {
        match self {
            AnalyzerError::IoError { path, source, .. } =>
                "IO error reading '"@ + path@ + "': "@ + source@,
            AnalyzerError::NoFilesFound { path } =>
                "No .log files found in '"@ + path@ + "'"@,
            AnalyzerError::InvalidPath { path, reason } =>
                "Invalid path '"@ + path@ + "': "@ + reason@,
        }
    }

    /// Describes the error on one line, naming the path concerned.
    pub fn message(&self) -> (s: String)
        ensures
            s@ == self.message_spec(),
    {
        let mut out: Vec<char> = Vec::new();
        match self {
            AnalyzerError::IoError { path, source, .. } => {
                push_str(&mut out, "IO error reading '");
                push_str(&mut out, path.as_str());
                push_str(&mut out, "': ");
                push_str(&mut out, source.as_str());
            },
            AnalyzerError::NoFilesFound { path } => {
                push_str(&mut out, "No .log files found in '");
                push_str(&mut out, path.as_str());
                push_str(&mut out, "'");
            },
            AnalyzerError::InvalidPath { path, reason } => {
                push_str(&mut out, "Invalid path '");
                push_str(&mut out, path.as_str());
                push_str(&mut out, "': ");
                push_str(&mut out, reason.as_str());
            },
        }
        assert(out@ =~= self.message_spec());
        string_from_chars(&out)
    }
}

/// A log line that could not be parsed, with where it came from and why.
#[derive(Debug)]
pub struct ParseError {
    pub file: String,
    pub line_number: usize,
    pub content: String,
    pub reason: String,
}

impl ParseError {
    /// The one-line description of the error.
    pub open spec fn message_spec(self) -> Seq<char> {
        "Parse error in '"@ + self.file@ + "' at line "@ + decimal(self.line_number as nat)
            + ": "@ + self.reason@ + " \u{2014} original: '"@ + self.content@ + "'"@
    }

    /// Describes the error on one line: file, line number, reason and the
    /// original text.
    pub fn message(&self) -> (s: String)
        ensures
            s@ == self.message_spec(),
    {
        let mut out: Vec<char> = Vec::new();
        push_str(&mut out, "Parse error in '");
        push_str(&mut out, self.file.as_str());
        push_str(&mut out, "' at line ");
        push_decimal(&mut out, self.line_number as u64);
        push_str(&mut out, ": ");
        push_str(&mut out, self.reason.as_str());
        push_str(&mut out, " \u{2014} original: '");
        push_str(&mut out, self.content.as_str());
        push_str(&mut out, "'");
        assert(out@ =~= self.message_spec());
        string_from_chars(&out)
    }
}

} // verus!
