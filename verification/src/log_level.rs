//! Severity levels of log entries.

use vstd::prelude::*;
use crate::text::{
    ascii_lower, chars_eq_ignore_ascii_case, chars_of, eq_ignore_ascii_case, push_chars, push_str,
    string_from_chars,
};

verus! {

/// Severity of a log entry, from least to most severe.
#[derive(Clone, Copy, Debug, PartialEq, Eq, Hash, PartialOrd, Ord, Structural)]
pub enum LogLevel {
    Trace,
    Debug,
    Info,
    Warn,
    Error,
    Fatal,
}

impl LogLevel {
    /// Position in the severity order: `Trace` is 0, `Fatal` is 5.
    pub open spec fn spec_rank(self) -> nat {
        match self {
            LogLevel::Trace => 0,
            LogLevel::Debug => 1,
            LogLevel::Info => 2,
            LogLevel::Warn => 3,
            LogLevel::Error => 4,
            LogLevel::Fatal => 5,
        }
    }

    /// The level whose rank is `r < 6`.
    pub open spec fn from_rank(r: nat) -> LogLevel {
        if r == 0 {
            LogLevel::Trace
        } else if r == 1 {
            LogLevel::Debug
        } else if r == 2 {
            LogLevel::Info
        } else if r == 3 {
            LogLevel::Warn
        } else if r == 4 {
            LogLevel::Error
        } else {
            LogLevel::Fatal
        }
    }

    /// The upper-case name of the level, as displayed.
    pub open spec fn name(self) -> Seq<char> {
        match self {
            LogLevel::Trace => "TRACE"@,
            LogLevel::Debug => "DEBUG"@,
            LogLevel::Info => "INFO"@,
            LogLevel::Warn => "WARN"@,
            LogLevel::Error => "ERROR"@,
            LogLevel::Fatal => "FATAL"@,
        }
    }

    /// The level named by `s`, compared without regard to ASCII case; the
    /// levels are tried from `Trace` to `Fatal`.
    pub open spec fn parse_spec(s: Seq<char>) -> Option<LogLevel> {
        if eq_ignore_ascii_case(s, "TRACE"@) {
            Some(LogLevel::Trace)
        } else if eq_ignore_ascii_case(s, "DEBUG"@) {
            Some(LogLevel::Debug)
        } else if eq_ignore_ascii_case(s, "INFO"@) {
            Some(LogLevel::Info)
        } else if eq_ignore_ascii_case(s, "WARN"@) {
            Some(LogLevel::Warn)
        } else if eq_ignore_ascii_case(s, "ERROR"@) {
            Some(LogLevel::Error)
        } else if eq_ignore_ascii_case(s, "FATAL"@) {
            Some(LogLevel::Fatal)
        } else {
            None
        }
    }

    /// The message of a refused level name.
    pub open spec fn parse_error(s: Seq<char>) -> Seq<char> {
        "unknown log level '"@ + s + "'"@
    }

    /// Law: every level's name parses back to the level, and so does the name
    /// written in lower case.
    pub proof fn lemma_name_parses(self)
        ensures
            Self::parse_spec(self.name()) == Some(self),
            Self::parse_spec(lower_ascii(self.name())) == Some(self),
    {
        reveal_strlit("TRACE");
        reveal_strlit("DEBUG");
        reveal_strlit("INFO");
        reveal_strlit("WARN");
        reveal_strlit("ERROR");
        reveal_strlit("FATAL");
        let n = self.name();
        let low = lower_ascii(n);
        assert(eq_ignore_ascii_case(n, n));
        assert forall|i: int| 0 <= i < n.len() implies ascii_lower(#[trigger] low[i]) == ascii_lower(
            n[i],
        ) by {}
        assert(eq_ignore_ascii_case(low, n));
        // Names of equal length differ in their first letter.
        assert(ascii_lower('T') != ascii_lower('D'));
        assert(ascii_lower('T') != ascii_lower('E'));
        assert(ascii_lower('T') != ascii_lower('F'));
        assert(ascii_lower('D') != ascii_lower('E'));
        assert(ascii_lower('D') != ascii_lower('F'));
        assert(ascii_lower('E') != ascii_lower('F'));
        assert(ascii_lower('I') != ascii_lower('W'));
        assert(!eq_ignore_ascii_case("DEBUG"@, "TRACE"@)) by {
            assert(ascii_lower("DEBUG"@[0]) != ascii_lower("TRACE"@[0]));
        }
        assert(!eq_ignore_ascii_case("ERROR"@, "TRACE"@)) by {
            assert(ascii_lower("ERROR"@[0]) != ascii_lower("TRACE"@[0]));
        }
        assert(!eq_ignore_ascii_case("ERROR"@, "DEBUG"@)) by {
            assert(ascii_lower("ERROR"@[0]) != ascii_lower("DEBUG"@[0]));
        }
        assert(!eq_ignore_ascii_case("FATAL"@, "TRACE"@)) by {
            assert(ascii_lower("FATAL"@[0]) != ascii_lower("TRACE"@[0]));
        }
        assert(!eq_ignore_ascii_case("FATAL"@, "DEBUG"@)) by {
            assert(ascii_lower("FATAL"@[0]) != ascii_lower("DEBUG"@[0]));
        }
        assert(!eq_ignore_ascii_case("FATAL"@, "ERROR"@)) by {
            assert(ascii_lower("FATAL"@[0]) != ascii_lower("ERROR"@[0]));
        }
        assert(!eq_ignore_ascii_case("WARN"@, "INFO"@)) by {
            assert(ascii_lower("WARN"@[0]) != ascii_lower("INFO"@[0]));
        }
        lemma_case_insensitive_same(low, n, "TRACE"@);
        lemma_case_insensitive_same(low, n, "DEBUG"@);
        lemma_case_insensitive_same(low, n, "INFO"@);
        lemma_case_insensitive_same(low, n, "WARN"@);
        lemma_case_insensitive_same(low, n, "ERROR"@);
        lemma_case_insensitive_same(low, n, "FATAL"@);
    }

    /// Law: level names are read without regard to ASCII case: two names
    /// that differ only in the case of ASCII letters name the same level, or
    /// none.
    pub proof fn lemma_parse_ignores_case(a: Seq<char>, b: Seq<char>)
        requires
            eq_ignore_ascii_case(a, b),
        ensures
            Self::parse_spec(a) == Self::parse_spec(b),
    {
        lemma_case_insensitive_same(a, b, "TRACE"@);
        lemma_case_insensitive_same(a, b, "DEBUG"@);
        lemma_case_insensitive_same(a, b, "INFO"@);
        lemma_case_insensitive_same(a, b, "WARN"@);
        lemma_case_insensitive_same(a, b, "ERROR"@);
        lemma_case_insensitive_same(a, b, "FATAL"@);
    }

    /// Position in the severity order.
    pub fn rank(&self) -> (r: u8)
        ensures
            r == self.spec_rank(),
    {
        match self {
            LogLevel::Trace => 0,
            LogLevel::Debug => 1,
            LogLevel::Info => 2,
            LogLevel::Warn => 3,
            LogLevel::Error => 4,
            LogLevel::Fatal => 5,
        }
    }

    /// The upper-case name of the level.
    pub fn as_str(&self) -> (s: &'static str)
        ensures
            s@ == self.name(),
    {
        match self {
            LogLevel::Trace => "TRACE",
            LogLevel::Debug => "DEBUG",
            LogLevel::Info => "INFO",
            LogLevel::Warn => "WARN",
            LogLevel::Error => "ERROR",
            LogLevel::Fatal => "FATAL",
        }
    }

    /// The upper-case name of the level, as an owned string.
    pub fn to_string(&self) -> (s: String)
        ensures
            s@ == self.name(),
    {
        let v = chars_of(self.as_str());
        string_from_chars(&v)
    }

    /// The level named by `v[from..to]`, without regard to ASCII case.
    pub fn parse_chars(v: &Vec<char>, from: usize, to: usize) -> (r: Option<LogLevel>)
        requires
            from <= to <= v.len(),
        ensures
            r == Self::parse_spec(v@.subrange(from as int, to as int)),
    {
        let mut w: Vec<char> = Vec::new();
        push_chars(&mut w, v, from, to);
        assert(w@ =~= v@.subrange(from as int, to as int));
        if chars_eq_ignore_ascii_case(&w, &chars_of("TRACE")) {
            Some(LogLevel::Trace)
        } else if chars_eq_ignore_ascii_case(&w, &chars_of("DEBUG")) {
            Some(LogLevel::Debug)
        } else if chars_eq_ignore_ascii_case(&w, &chars_of("INFO")) {
            Some(LogLevel::Info)
        } else if chars_eq_ignore_ascii_case(&w, &chars_of("WARN")) {
            Some(LogLevel::Warn)
        } else if chars_eq_ignore_ascii_case(&w, &chars_of("ERROR")) {
            Some(LogLevel::Error)
        } else if chars_eq_ignore_ascii_case(&w, &chars_of("FATAL")) {
            Some(LogLevel::Fatal)
        } else {
            None
        }
    }

    /// Appends the message for the refused level name `v[from..to]`.
    pub fn push_parse_error(out: &mut Vec<char>, v: &Vec<char>, from: usize, to: usize)
        requires
            from <= to <= v.len(),
        ensures
            final(out)@ == old(out)@ + Self::parse_error(v@.subrange(from as int, to as int)),
    {
        push_str(out, "unknown log level '");
        push_chars(out, v, from, to);
        push_str(out, "'");
        assert(final(out)@ =~= old(out)@ + Self::parse_error(v@.subrange(from as int, to as int)));
    }

    /// Parses a level name without regard to ASCII case.
    pub fn from_str(s: &str) -> (r: Result<LogLevel, String>)
        ensures
            r matches Ok(l) ==> Self::parse_spec(s@) == Some(l),
            r matches Err(e) ==> Self::parse_spec(s@).is_none() && e@ == Self::parse_error(s@),
    {
        let v = chars_of(s);
        assert(v@.subrange(0, v.len() as int) =~= s@);
        match Self::parse_chars(&v, 0, v.len()) {
            Some(l) => Ok(l),
            None => {
                let mut out: Vec<char> = Vec::new();
                Self::push_parse_error(&mut out, &v, 0, v.len());
                assert(out@ =~= Self::parse_error(s@));
                Err(string_from_chars(&out))
            },
        }
    }
}

impl core::str::FromStr for LogLevel {
    type Err = String;

    /// Parses a level name without regard to ASCII case, as
    /// `LogLevel::from_str` does.
    fn from_str(s: &str) -> (r: Result<LogLevel, String>)
        ensures
            r matches Ok(l) ==> Self::parse_spec(s@) == Some(l),
            r matches Err(e) ==> Self::parse_spec(s@).is_none() && e@ == Self::parse_error(s@),
    {
        LogLevel::from_str(s)
    }
}

/// The levels from least to most severe, as the documentation lists them.
pub open spec fn severity() -> Seq<LogLevel> {
    seq![
        LogLevel::Trace,
        LogLevel::Debug,
        LogLevel::Info,
        LogLevel::Warn,
        LogLevel::Error,
        LogLevel::Fatal,
    ]
}

/// Law: every level has its place in the severity order, and the rank of a
/// level grows with its severity: of two levels, the one later in
/// `Trace`, `Debug`, `Info`, `Warn`, `Error`, `Fatal` has the larger rank.
pub proof fn lemma_rank_follows_severity(a: LogLevel)
    ensures
        severity().contains(a),
        forall|i: int, j: int|
            0 <= i < 6 && 0 <= j < 6 ==> ((#[trigger] severity()[i]).spec_rank() < (
            #[trigger] severity()[j]).spec_rank() <==> i < j),
{
    let s = severity();
    match a {
        LogLevel::Trace => assert(s[0] == a),
        LogLevel::Debug => assert(s[1] == a),
        LogLevel::Info => assert(s[2] == a),
        LogLevel::Warn => assert(s[3] == a),
        LogLevel::Error => assert(s[4] == a),
        LogLevel::Fatal => assert(s[5] == a),
    }
    assert forall|i: int| 0 <= i < 6 implies (#[trigger] s[i]).spec_rank() == i by {}
}

/// `s` with ASCII letters in lower case.
pub open spec fn lower_ascii(s: Seq<char>) -> Seq<char> {
    s.map_values(|c: char| ascii_lower(c))
}

/// Texts equal without regard to ASCII case compare alike with a third.
proof fn lemma_case_insensitive_same(a: Seq<char>, b: Seq<char>, c: Seq<char>)
    requires
        eq_ignore_ascii_case(a, b),
    ensures
        eq_ignore_ascii_case(a, c) == eq_ignore_ascii_case(b, c),
{
    if eq_ignore_ascii_case(b, c) {
        assert forall|i: int| 0 <= i < a.len() implies ascii_lower(#[trigger] a[i]) == ascii_lower(
            c[i],
        ) by {
            assert(ascii_lower(b[i]) == ascii_lower(c[i]));
        }
    }
    if eq_ignore_ascii_case(a, c) {
        assert forall|i: int| 0 <= i < b.len() implies ascii_lower(#[trigger] b[i]) == ascii_lower(
            c[i],
        ) by {
            assert(ascii_lower(a[i]) == ascii_lower(c[i]));
        }
    }
}

} // verus!
