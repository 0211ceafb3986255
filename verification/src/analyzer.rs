//! Accumulating entries and parse errors over the lines of log files.

use vstd::prelude::*;
use crate::errors::{AnalyzerError, IoErrorKind, ParseError};
use crate::datetime::DateTime;
use crate::log_level::{lemma_rank_follows_severity, lower_ascii, severity, LogLevel};
use crate::parser::{
    entry_matches, lemma_parse_line_results, parse_line_spec, parse_log_line,
    LineFields, LogEntry,
};
use crate::statistics::{describes, Statistics};
use crate::text::{ascii_lower, chars_eq_ignore_ascii_case, chars_of, eq_ignore_ascii_case, trim, trim_bounds};

verus! {

/// A line holds only whitespace.
pub open spec fn is_blank(line: Seq<char>) -> bool {
    trim(line).len() == 0
}

/// The fields of the lines that parse, in order; blank lines are skipped.
pub open spec fn accepted(lines: Seq<Seq<char>>) -> Seq<LineFields>
    decreases lines.len(),
{
    if lines.len() == 0 {
        Seq::empty()
    } else {
        let p = accepted(lines.drop_last());
        let l = lines.last();
        if is_blank(l) {
            p
        } else {
            match parse_line_spec(l) {
                Ok(f) => p.push(f),
                Err(_) => p,
            }
        }
    }
}

/// A refused line: its number (counting from 1), its text and the reason.
pub struct Refusal {
    pub line_number: nat,
    pub content: Seq<char>,
    pub reason: Seq<char>,
}

/// The lines that do not parse, in order; blank lines are skipped.
pub open spec fn refused(lines: Seq<Seq<char>>) -> Seq<Refusal>
    decreases lines.len(),
{
    if lines.len() == 0 {
        Seq::empty()
    } else {
        let p = refused(lines.drop_last());
        let l = lines.last();
        if is_blank(l) {
            p
        } else {
            match parse_line_spec(l) {
                Ok(_) => p,
                Err(reason) => p.push(Refusal { line_number: lines.len(), content: l, reason }),
            }
        }
    }
}

/// The number of lines that are not blank.
pub open spec fn non_blank_count(lines: Seq<Seq<char>>) -> nat
    decreases lines.len(),
{
    if lines.len() == 0 {
        0
    } else {
        non_blank_count(lines.drop_last()) + if is_blank(lines.last()) {
            0nat
        } else {
            1nat
        }
    }
}

/// The refusal `r` names a line of `lines` by its number, from 1, carries
/// that line's text, which is not blank, and gives a reason.
pub open spec fn refusal_of(r: Refusal, lines: Seq<Seq<char>>) -> bool {
    &&& 1 <= r.line_number <= lines.len()
    &&& r.content == lines[r.line_number - 1]
    &&& !is_blank(r.content)
    &&& r.reason.len() > 0
}

/// Law: every refused line is reported with its number, its own text and a
/// reason, and the refusals follow the order of the lines.
pub proof fn lemma_refusals_described(lines: Seq<Seq<char>>)
    ensures
        forall|i: int| 0 <= i < refused(lines).len() ==> refusal_of(#[trigger] refused(lines)[i], lines),
        forall|i: int, j: int|
            0 <= i < j < refused(lines).len() ==> (#[trigger] refused(lines)[i]).line_number < (
            #[trigger] refused(lines)[j]).line_number,
    decreases lines.len(),
{
    if lines.len() > 0 {
        let q = lines.drop_last();
        lemma_refusals_described(q);
        lemma_parse_line_results(lines.last());
        let p = refused(q);
        let r = refused(lines);
        assert forall|i: int| 0 <= i < r.len() implies refusal_of(#[trigger] r[i], lines) by {
            if i < p.len() {
                assert(r[i] == p[i]);
                assert(refusal_of(p[i], q));
                assert(q[p[i].line_number - 1] == lines[p[i].line_number - 1]);
            }
        }
        assert forall|i: int, j: int| 0 <= i < j < r.len() implies (#[trigger] r[i]).line_number < (
        #[trigger] r[j]).line_number by {
            assert(r[i] == p[i]);
            assert(refusal_of(p[i], q));
            if j < p.len() {
                assert(r[j] == p[j]);
            }
        }
    }
}

/// The error `e` records refusal `r` of a line of `source_file`.
pub open spec fn error_matches(e: ParseError, r: Refusal, source_file: Seq<char>) -> bool {
    &&& e.file@ == source_file
    &&& e.line_number == r.line_number
    &&& e.content@ == r.content
    &&& e.reason@ == r.reason
}

/// The texts of the lines.
pub open spec fn lines_view(lines: Seq<String>) -> Seq<Seq<char>> {
    lines.map_values(|l: String| l@)
}

/// An entry passes the filters: its level is at least `min_level`, and its
/// component equals `component` without regard to ASCII case.
pub open spec fn keeps(e: LogEntry, min_level: Option<LogLevel>, component: Option<Seq<char>>) -> bool {
    &&& match min_level {
        Some(m) => e.level.spec_rank() >= m.spec_rank(),
        None => true,
    }
    &&& match component {
        Some(c) => eq_ignore_ascii_case(e.component@, c),
        None => true,
    }
}

/// The entries of `es` that pass the filters, in order.
pub open spec fn filtered(
    es: Seq<LogEntry>,
    min_level: Option<LogLevel>,
    component: Option<Seq<char>>,
) -> Seq<LogEntry>
    decreases es.len(),
{
    if es.len() == 0 {
        Seq::empty()
    } else {
        let p = filtered(es.drop_last(), min_level, component);
        if keeps(es.last(), min_level, component) {
            p.push(es.last())
        } else {
            p
        }
    }
}

/// Law: filtering keeps only entries that pass the filters, keeps their
/// order, and without filters keeps everything.
pub proof fn lemma_filtered(es: Seq<LogEntry>, min_level: Option<LogLevel>, component: Option<Seq<char>>)
    ensures
        filtered(es, None, None) == es,
        filtered(es, min_level, component).len() <= es.len(),
        forall|i: int|
            0 <= i < filtered(es, min_level, component).len() ==> keeps(
                #[trigger] filtered(es, min_level, component)[i],
                min_level,
                component,
            ),
        forall|i: int| 0 <= i < es.len() && keeps(#[trigger] es[i], min_level, component) ==> filtered(
            es,
            min_level,
            component,
        ).contains(es[i]),
    decreases es.len(),
{
    if es.len() > 0 {
        let p = es.drop_last();
        lemma_filtered(p, min_level, component);
        assert(p.push(es.last()) =~= es);
        let f = filtered(es, min_level, component);
        let fp = filtered(p, min_level, component);
        assert forall|i: int| 0 <= i < f.len() implies keeps(#[trigger] f[i], min_level, component) by {
            if i < fp.len() {
                assert(f[i] == fp[i]);
            }
        }
        assert forall|i: int| 0 <= i < es.len() && keeps(#[trigger] es[i], min_level, component)
            implies f.contains(es[i]) by {
            if i < p.len() {
                assert(es[i] == p[i]);
                let k = choose|k: int| 0 <= k < fp.len() && fp[k] == p[i];
                assert(f[k] == fp[k]);
            } else {
                assert(f[f.len() - 1] == es[i]);
            }
        }
    } else {
        assert(filtered(es, None, None) =~= es);
    }
}

/// Law: filtering by a minimum level keeps exactly the entries whose level is
/// that level or one listed after it in `Trace`, `Debug`, `Info`, `Warn`,
/// `Error`, `Fatal`.
pub proof fn lemma_level_filter(e: LogEntry, i: int)
    requires
        0 <= i < 6,
    ensures
        keeps(e, Some(severity()[i]), None) <==> severity().subrange(i, 6).contains(e.level),
{
    let s = severity();
    lemma_rank_follows_severity(e.level);
    let j = choose|j: int| 0 <= j < s.len() && s[j] == e.level;
    assert(s[j] == e.level);
    if j >= i {
        assert(s.subrange(i, 6)[j - i] == e.level);
    } else {
        assert(s[j].spec_rank() < s[i].spec_rank());
        if s.subrange(i, 6).contains(e.level) {
            let k = choose|k: int| 0 <= k < s.subrange(i, 6).len() && s.subrange(i, 6)[k] == e.level;
            assert(s[i + k] == e.level);
            assert(s[i + k].spec_rank() == s[j].spec_rank());
            assert(!(s[i + k].spec_rank() < s[j].spec_rank()));
        }
    }
}

/// Law: filtering by a component keeps exactly the entries whose component,
/// with ASCII letters in lower case, is the filter text in lower case; so
/// `Storage`, `storage` and `STORAGE` select the same entries.
pub proof fn lemma_component_filter(e: LogEntry, c: Seq<char>)
    ensures
        keeps(e, None, Some(c)) <==> lower_ascii(e.component@) == lower_ascii(c),
        lower_ascii(c).len() == c.len(),
        forall|i: int|
            0 <= i < c.len() ==> ('A' <= c[i] <= 'Z' ==> (#[trigger] lower_ascii(c)[i]) as u32 == (
            c[i] as u32) + 32) && (!('A' <= c[i] <= 'Z') ==> lower_ascii(c)[i] == c[i]),
{
    let x = e.component@;
    if lower_ascii(x) == lower_ascii(c) {
        assert forall|i: int| 0 <= i < x.len() implies ascii_lower(#[trigger] x[i]) == ascii_lower(
            c[i],
        ) by {
            assert(lower_ascii(x)[i] == lower_ascii(c)[i]);
        }
    }
    if keeps(e, None, Some(c)) {
        assert(lower_ascii(x) =~= lower_ascii(c));
    }
}

/// An optional text filter as an optional text.
pub open spec fn opt_text(o: Option<&str>) -> Option<Seq<char>> {
    match o {
        Some(c) => Some(c@),
        None => None,
    }
}

/// Every line that parses adds an entry and every other line that is not
/// blank adds an error: together, as many as there are lines that are not
/// blank.
pub proof fn lemma_every_line_accounted(lines: Seq<Seq<char>>)
    ensures
        accepted(lines).len() + refused(lines).len() == non_blank_count(lines),
    decreases lines.len(),
{
    if lines.len() > 0 {
        lemma_every_line_accounted(lines.drop_last());
    }
}

/// `after` is `before` with the lines of `source_file` processed: the entries
/// of the accepted lines and the errors of the refused ones are appended, in
/// order, to those already gathered.
pub open spec fn processed(
    before: LogAnalyzer,
    after: LogAnalyzer,
    source_file: Seq<char>,
    lines: Seq<Seq<char>>,
) -> bool {
    let acc = accepted(lines);
    let rej = refused(lines);
    let e0 = before.entries_spec();
    let r0 = before.errors_spec();
    let e1 = after.entries_spec();
    let r1 = after.errors_spec();
    &&& e1.len() == e0.len() + acc.len()
    &&& e1.take(e0.len() as int) == e0
    &&& forall|i: int|
        0 <= i < acc.len() ==> entry_matches(#[trigger] e1[e0.len() + i], acc[i], source_file)
    &&& r1.len() == r0.len() + rej.len()
    &&& r1.take(r0.len() as int) == r0
    &&& forall|i: int|
        0 <= i < rej.len() ==> error_matches(#[trigger] r1[r0.len() + i], rej[i], source_file)
}

/// An entry as plain values: timestamp, level, component, message, file.
pub open spec fn entry_view(e: LogEntry) -> (DateTime, LogLevel, Seq<char>, Seq<char>, Seq<char>) {
    (e.timestamp, e.level, e.component@, e.message@, e.source_file@)
}

/// A parse error as plain values: file, line number, text, reason.
pub open spec fn error_view(e: ParseError) -> (Seq<char>, nat, Seq<char>, Seq<char>) {
    (e.file@, e.line_number as nat, e.content@, e.reason@)
}

/// Entries as plain values.
pub open spec fn entries_view(es: Seq<LogEntry>) -> Seq<(DateTime, LogLevel, Seq<char>, Seq<char>, Seq<char>)> {
    es.map_values(|e: LogEntry| entry_view(e))
}

/// Parse errors as plain values.
pub open spec fn errors_view(es: Seq<ParseError>) -> Seq<(Seq<char>, nat, Seq<char>, Seq<char>)> {
    es.map_values(|e: ParseError| error_view(e))
}

/// What the entries and errors gathered from the lines of `source_file` by
/// an empty analyzer are, as plain values.
pub open spec fn file_entries(source_file: Seq<char>, lines: Seq<Seq<char>>) -> Seq<
    (DateTime, LogLevel, Seq<char>, Seq<char>, Seq<char>),
> {
    accepted(lines).map_values(
        |f: LineFields| (f.timestamp, f.level, f.component, f.message, source_file),
    )
}

/// The errors gathered from the lines of `source_file`, as plain values.
pub open spec fn file_errors(source_file: Seq<char>, lines: Seq<Seq<char>>) -> Seq<
    (Seq<char>, nat, Seq<char>, Seq<char>),
> {
    refused(lines).map_values(
        |r: Refusal| (source_file, r.line_number, r.content, r.reason),
    )
}

/// What processing appends, as plain values.
proof fn lemma_processed_appends(
    before: LogAnalyzer,
    after: LogAnalyzer,
    source_file: Seq<char>,
    lines: Seq<Seq<char>>,
)
    requires
        processed(before, after, source_file, lines),
    ensures
        entries_view(after.entries_spec()) == entries_view(before.entries_spec()) + file_entries(source_file, lines),
        errors_view(after.errors_spec()) == errors_view(before.errors_spec()) + file_errors(source_file, lines),
{
    let e0 = before.entries_spec();
    let e1 = after.entries_spec();
    let r0 = before.errors_spec();
    let r1 = after.errors_spec();
    lemma_refusals_described(lines);
    assert forall|i: int| 0 <= i < e1.len() implies #[trigger] entries_view(e1)[i] == (entries_view(e0) + file_entries(source_file, lines))[i] by {
        if i < e0.len() {
            assert(e1[i] == e1.take(e0.len() as int)[i]);
        } else {
            assert(entry_matches(e1[e0.len() + (i - e0.len())], accepted(lines)[i - e0.len()], source_file));
        }
    }
    assert(entries_view(e1) =~= entries_view(e0)
        + file_entries(source_file, lines));
    assert forall|i: int| 0 <= i < r1.len() implies #[trigger] errors_view(r1)[i] == (errors_view(r0) + file_errors(source_file, lines))[i] by {
        if i < r0.len() {
            assert(r1[i] == r1.take(r0.len() as int)[i]);
        } else {
            let k = i - r0.len();
            assert(error_matches(r1[r0.len() + k], refused(lines)[k], source_file));
            assert(refusal_of(refused(lines)[k], lines));
        }
    }
    assert(errors_view(r1) =~= errors_view(r0)
        + file_errors(source_file, lines));
}

/// Law: an analyzer that processes the lines of two files in turn holds the
/// entries and the errors of the first file followed by those of the second:
/// what an empty analyzer gathers from each file alone.
pub proof fn lemma_files_accumulate(
    a0: LogAnalyzer,
    a1: LogAnalyzer,
    a2: LogAnalyzer,
    f1: Seq<char>,
    l1: Seq<Seq<char>>,
    f2: Seq<char>,
    l2: Seq<Seq<char>>,
)
    requires
        a0.entries_spec().len() == 0,
        a0.errors_spec().len() == 0,
        processed(a0, a1, f1, l1),
        processed(a1, a2, f2, l2),
    ensures
        entries_view(a2.entries_spec()) == file_entries(f1, l1)
            + file_entries(f2, l2),
        errors_view(a2.errors_spec()) == file_errors(f1, l1)
            + file_errors(f2, l2),
        a2.entries_spec().len() == accepted(l1).len() + accepted(l2).len(),
{
    lemma_processed_appends(a0, a1, f1, l1);
    lemma_processed_appends(a1, a2, f2, l2);
    assert(entries_view(a0.entries_spec()) =~= Seq::empty());
    assert(errors_view(a0.errors_spec()) =~= Seq::empty());
    assert(Seq::<(DateTime, LogLevel, Seq<char>, Seq<char>, Seq<char>)>::empty() + file_entries(f1, l1)
        =~= file_entries(f1, l1));
    assert(Seq::<(Seq<char>, nat, Seq<char>, Seq<char>)>::empty() + file_errors(f1, l1)
        =~= file_errors(f1, l1));
}

/// Law: every parse error that an empty analyzer gathers from the lines of a
/// file names that file, a line number within it, that line's text, which is
/// not blank, and a non-empty reason.
pub proof fn lemma_errors_described(
    a0: LogAnalyzer,
    a1: LogAnalyzer,
    source_file: Seq<char>,
    lines: Seq<Seq<char>>,
)
    requires
        a0.errors_spec().len() == 0,
        processed(a0, a1, source_file, lines),
    ensures
        forall|i: int|
            0 <= i < a1.errors_spec().len() ==> {
                let e = #[trigger] a1.errors_spec()[i];
                &&& e.file@ == source_file
                &&& 1 <= e.line_number <= lines.len()
                &&& e.content@ == lines[e.line_number - 1]
                &&& !is_blank(e.content@)
                &&& e.reason@.len() > 0
            },
{
    lemma_refusals_described(lines);
    let r1 = a1.errors_spec();
    assert forall|i: int| 0 <= i < r1.len() implies {
        let e = #[trigger] r1[i];
        &&& e.file@ == source_file
        &&& 1 <= e.line_number <= lines.len()
        &&& e.content@ == lines[e.line_number - 1]
        &&& !is_blank(e.content@)
        &&& e.reason@.len() > 0
    } by {
        assert(error_matches(r1[0 + i], refused(lines)[i], source_file));
        assert(refusal_of(refused(lines)[i], lines));
    }
}

/// The entries and the parse errors gathered so far.
pub struct LogAnalyzer {
    entries: Vec<LogEntry>,
    errors: Vec<ParseError>,
}

impl LogAnalyzer {
    /// The entries gathered so far.
    pub closed spec fn entries_spec(&self) -> Seq<LogEntry> {
        self.entries@
    }

    /// The parse errors gathered so far.
    pub closed spec fn errors_spec(&self) -> Seq<ParseError> {
        self.errors@
    }

    /// An analyzer with no entries and no errors.
    pub fn new() -> (a: Self)
        ensures
            a.entries_spec() == Seq::<LogEntry>::empty(),
            a.errors_spec() == Seq::<ParseError>::empty(),
    {
        LogAnalyzer { entries: Vec::new(), errors: Vec::new() }
    }

    /// The entries gathered so far.
    pub fn entries(&self) -> (s: &[LogEntry])
        ensures
            s@ == self.entries_spec(),
    {
        self.entries.as_slice()
    }

    /// The parse errors gathered so far.
    pub fn parse_errors(&self) -> (s: &[ParseError])
        ensures
            s@ == self.errors_spec(),
    {
        self.errors.as_slice()
    }

    /// Statistics over the entries gathered so far.
    pub fn statistics(&self) -> (st: Statistics)
        ensures
            describes(st, self.entries_spec()),
            st.well_formed(),
    {
        Statistics::from_entries(self.entries.as_slice())
    }

    /// Processes the lines of one file, numbered from 1: blank lines are
    /// skipped, each line that parses adds an entry and each other line adds a
    /// parse error. Returns the number of entries added.
    pub fn process_lines(&mut self, source_file: &str, lines: &Vec<String>) -> (count: usize)
        requires
            lines.len() < usize::MAX,
        ensures
            count == accepted(lines_view(lines@)).len(),
            processed(*old(self), *final(self), source_file@, lines_view(lines@)),
    {
        let ghost lv = lines_view(lines@);
        let ghost e0 = self.entries@;
        let ghost r0 = self.errors@;
        let mut count: usize = 0;
        let mut i: usize = 0;
        assert(lv.take(0) =~= Seq::<Seq<char>>::empty());
        while i < lines.len()
            invariant
                i <= lines.len() < usize::MAX,
                lv == lines_view(lines@),
                count == accepted(lv.take(i as int)).len(),
                self.entries@.len() == e0.len() + accepted(lv.take(i as int)).len(),
                self.entries@.take(e0.len() as int) == e0,
                forall|j: int|
                    0 <= j < accepted(lv.take(i as int)).len() ==> entry_matches(
                        #[trigger] self.entries@[e0.len() + j],
                        accepted(lv.take(i as int))[j],
                        source_file@,
                    ),
                self.errors@.len() == r0.len() + refused(lv.take(i as int)).len(),
                self.errors@.take(r0.len() as int) == r0,
                forall|j: int|
                    0 <= j < refused(lv.take(i as int)).len() ==> error_matches(
                        #[trigger] self.errors@[r0.len() + j],
                        refused(lv.take(i as int))[j],
                        source_file@,
                    ),
                accepted(lv.take(i as int)).len() <= i,
            decreases lines.len() - i,
        {
            let line = lines[i].as_str();
            let ghost prev_acc = accepted(lv.take(i as int));
            let ghost prev_rej = refused(lv.take(i as int));
            proof {
                assert(lv.take(i + 1).drop_last() =~= lv.take(i as int));
                assert(lv.take(i + 1).last() == line@);
                assert(lv.take(i + 1).len() == i + 1);
            }
            let v = chars_of(line);
            let (a, b) = trim_bounds(&v, 0, v.len());
            assert(v@.subrange(0, v.len() as int) =~= line@);
            if a == b {
                assert(is_blank(line@));
            } else {
                assert(!is_blank(line@));
                let line_number = i + 1;
                match parse_log_line(line, source_file, line_number) {
                    Ok(entry) => {
                        let ghost before = self.entries@;
                        self.entries.push(entry);
                        count += 1;
                        proof {
                            assert(self.entries@.take(e0.len() as int) =~= before.take(
                                e0.len() as int,
                            ));
                            assert forall|j: int|
                                0 <= j < accepted(lv.take(i + 1)).len() implies entry_matches(
                                #[trigger] self.entries@[e0.len() + j],
                                accepted(lv.take(i + 1))[j],
                                source_file@,
                            ) by {
                                if j < prev_acc.len() {
                                    assert(self.entries@[e0.len() + j] == before[e0.len() + j]);
                                }
                            }
                        }
                    },
                    Err(err) => {
                        let ghost before = self.errors@;
                        self.errors.push(err);
                        proof {
                            assert(self.errors@.take(r0.len() as int) =~= before.take(
                                r0.len() as int,
                            ));
                            assert forall|j: int|
                                0 <= j < refused(lv.take(i + 1)).len() implies error_matches(
                                #[trigger] self.errors@[r0.len() + j],
                                refused(lv.take(i + 1))[j],
                                source_file@,
                            ) by {
                                if j < prev_rej.len() {
                                    assert(self.errors@[r0.len() + j] == before[r0.len() + j]);
                                }
                            }
                        }
                    },
                }
            }
            i += 1;
        }
        assert(lv.take(lines.len() as int) =~= lv);
        count
    }

    /// Processes the lines read from the file at `path`, as `process_lines`
    /// does, then reports the failure that stopped the reading, if any: the
    /// lines read before it are kept. Returns the number of entries added.
    pub fn process_read_lines(
        &mut self,
        path: &str,
        lines: &Vec<String>,
        read_failure: Option<(IoErrorKind, String)>,
    ) -> (r: Result<usize, AnalyzerError>)
        requires
            lines.len() < usize::MAX,
        ensures
            processed(*old(self), *final(self), path@, lines_view(lines@)),
            read_failure is None ==> (r matches Ok(n) && n == accepted(lines_view(lines@)).len()),
            read_failure matches Some((k, m)) ==> (r matches Err(
                AnalyzerError::IoError { path: p, kind, source },
            ) && p@ == path@ && kind == k && source@ == m@),
    {
        let count = self.process_lines(path, lines);
        match read_failure {
            None => Ok(count),
            Some((kind, message)) => Err(
                AnalyzerError::IoError { path: path.to_owned(), kind, source: message },
            ),
        }
    }
}

impl Default for LogAnalyzer {
    fn default() -> (a: Self)
        ensures
            a.entries_spec() == Seq::<LogEntry>::empty(),
            a.errors_spec() == Seq::<ParseError>::empty(),
    {
        Self::new()
    }
}

/// The entries that pass the filters, in order: level at least `min_level`,
/// component equal to `component` without regard to ASCII case.
pub fn filter_entries(
    entries: &[LogEntry],
    min_level: Option<LogLevel>,
    component: Option<&str>,
) -> (out: Vec<LogEntry>)
    ensures
        out@ == filtered(entries@, min_level, opt_text(component)),
{
    let ghost comp = opt_text(component);
    let wanted: Option<Vec<char>> = match component {
        Some(c) => Some(chars_of(c)),
        None => None,
    };
    let mut out: Vec<LogEntry> = Vec::new();
    let mut i: usize = 0;
    assert(entries@.take(0) =~= Seq::<LogEntry>::empty());
    while i < entries.len()
        invariant
            i <= entries.len(),
            match wanted {
                Some(w) => comp == Some(w@),
                None => comp is None,
            },
            comp == opt_text(component),
            out@ == filtered(entries@.take(i as int), min_level, comp),
        decreases entries.len() - i,
    {
        let e = &entries[i];
        let level_ok = match min_level {
            Some(m) => e.level.rank() >= m.rank(),
            None => true,
        };
        let comp_ok = match &wanted {
            Some(w) => chars_eq_ignore_ascii_case(&chars_of(e.component.as_str()), w),
            None => true,
        };
        proof {
            assert(entries@.take(i + 1).drop_last() =~= entries@.take(i as int));
            assert(entries@.take(i + 1).last() == *e);
        }
        if level_ok && comp_ok {
            out.push(e.clone());
        }
        i += 1;
    }
    assert(entries@.take(entries.len() as int) =~= entries@);
    out
}

/// Whether a path given as a log file can be read, from what the file system
/// says of it: a missing path is an I/O error ("File not found"), and a path
/// that is not a regular file is invalid.
pub fn check_file_path(path: &str, exists: bool, is_file: bool) -> (r: Result<(), AnalyzerError>)
    ensures
        !exists ==> (r matches Err(AnalyzerError::IoError { path: p, kind, source: m }) && p@ == path@
            && kind == IoErrorKind::NotFound
            && m@ == "File not found"@),
        exists && !is_file ==> (r matches Err(AnalyzerError::InvalidPath { path: p, reason: m })
            && p@ == path@ && m@ == "Path is not a file"@),
        exists && is_file ==> r is Ok,
{
    if !exists {
        Err(
            AnalyzerError::IoError {
                path: path.to_owned(),
                kind: IoErrorKind::NotFound,
                source: "File not found".to_owned(),
            },
        )
    } else if !is_file {
        Err(AnalyzerError::InvalidPath { path: path.to_owned(), reason: "Path is not a file".to_owned() })
    } else {
        Ok(())
    }
}

/// Whether a path given as a directory of log files can be listed, from what
/// the file system says of it: a missing path is an I/O error ("Directory not
/// found"), and a path that is not a directory is invalid.
pub fn check_directory_path(path: &str, exists: bool, is_dir: bool) -> (r: Result<
    (),
    AnalyzerError,
>)
    ensures
        !exists ==> (r matches Err(AnalyzerError::IoError { path: p, kind, source: m }) && p@ == path@
            && kind == IoErrorKind::NotFound
            && m@ == "Directory not found"@),
        exists && !is_dir ==> (r matches Err(AnalyzerError::InvalidPath { path: p, reason: m })
            && p@ == path@ && m@ == "Path is not a directory"@),
        exists && is_dir ==> r is Ok,
{
    if !exists {
        Err(
            AnalyzerError::IoError {
                path: path.to_owned(),
                kind: IoErrorKind::NotFound,
                source: "Directory not found".to_owned(),
            },
        )
    } else if !is_dir {
        Err(
            AnalyzerError::InvalidPath {
                path: path.to_owned(),
                reason: "Path is not a directory".to_owned(),
            },
        )
    } else {
        Ok(())
    }
}

/// Whether a directory in which `count` log files were found can be analysed:
/// one without any is refused.
pub fn check_log_files_found(path: &str, count: usize) -> (r: Result<(), AnalyzerError>)
    ensures
        count == 0 ==> (r matches Err(AnalyzerError::NoFilesFound { path: p }) && p@ == path@),
        count > 0 ==> r is Ok,
{
    if count == 0 {
        Err(AnalyzerError::NoFilesFound { path: path.to_owned() })
    } else {
        Ok(())
    }
}

/// A directory entry named `name` is a log file by its name: its extension,
/// the part after the last `.`, is `log`, and something precedes that `.`.
pub open spec fn is_log_file_name_spec(name: Seq<char>) -> bool {
    &&& name.len() > 4
    &&& name.subrange(name.len() - 4, name.len() as int) == seq!['.', 'l', 'o', 'g']
}

/// The extension of log files, with its dot.
pub open spec fn log_extension() -> Seq<char> {
    seq!['.', 'l', 'o', 'g']
}

/// Law: a file name names a log file exactly when it is a non-empty stem
/// followed by `.log`.
pub proof fn lemma_log_file_name(name: Seq<char>)
    ensures
        is_log_file_name_spec(name) <==> exists|stem: Seq<char>|
            stem.len() > 0 && name == #[trigger] (stem + log_extension()),
{
    if is_log_file_name_spec(name) {
        let stem = name.take(name.len() - 4);
        assert(name =~= stem + log_extension());
    }
    if exists|stem: Seq<char>| stem.len() > 0 && name == #[trigger] (stem + log_extension()) {
        let stem = choose|stem: Seq<char>| stem.len() > 0 && name == #[trigger] (stem + log_extension());
        assert(name.subrange(name.len() - 4, name.len() as int) =~= log_extension());
    }
}

/// Whether a file named `name` has the extension `log`.
pub fn is_log_file_name(name: &str) -> (b: bool)
    ensures
        b == is_log_file_name_spec(name@),
{
    let v = chars_of(name);
    let n = v.len();
    if n <= 4 {
        return false;
    }
    let r = v[n - 4] == '.' && v[n - 3] == 'l' && v[n - 2] == 'o' && v[n - 1] == 'g';
    assert(r == (v@.subrange(n - 4, n as int) =~= seq!['.', 'l', 'o', 'g']));
    r
}

} // verus!
