//! Parsing of single log lines: `YYYY-MM-DD HH:MM:SS [LEVEL] component: message`.

use vstd::prelude::*;
use crate::datetime::{
    display_spec, lemma_display_layout, lemma_display_then_parse, lemma_parsed_is_valid,
    parse_spec, DateTime,
};
use crate::errors::ParseError;
use crate::log_level::LogLevel;
use crate::text::{
    byte_len, byte_len_at_least, char_index, chars_of, find_char, find_first, index_at_byte,
    is_boundary, lemma_byte_len_subrange, lemma_char_index_props, push_chars,
    string_from_chars, string_of_range, trim, trim_bounds, trim_start,
    lemma_byte_len_ascii, lemma_trim_known,
    lemma_trimmed_ends, lemma_leading_ws, lemma_find_first, is_ws, leading_ws, trailing_ws,
    lemma_char_index_unique, lemma_find_first_found, lemma_trim_idempotent, lemma_trim_within,
    lemma_byte_len_concat, lemma_leading_ws_bound, lemma_trim_after_trim_start,
    lemma_trim_start_concat,
};

verus! {

/// One parsed log entry.
#[derive(Debug)]
pub struct LogEntry {
    pub timestamp: DateTime,
    pub level: LogLevel,
    pub component: String,
    pub message: String,
    pub source_file: String,
}

impl Clone for LogEntry {
    fn clone(&self) -> (r: Self)
        ensures
            r == *self,
    {
        LogEntry {
            timestamp: self.timestamp,
            level: self.level,
            component: self.component.clone(),
            message: self.message.clone(),
            source_file: self.source_file.clone(),
        }
    }
}

/// What a well-formed line holds: timestamp, level, component and message.
pub struct LineFields {
    pub timestamp: DateTime,
    pub level: LogLevel,
    pub component: Seq<char>,
    pub message: Seq<char>,
}

/// The part of a line after `[`: the level text up to the first `]` and what
/// follows it.
pub open spec fn parse_after_bracket(dt: DateTime, rest: Seq<char>) -> Result<
    LineFields,
    Seq<char>,
> {
    match find_first(rest, ']') {
        None => Err("Missing closing ']' for log level"@),
        Some(c) => {
            let ls = rest.subrange(1, c);
            match LogLevel::parse_spec(ls) {
                None => Err("Invalid log level: "@ + LogLevel::parse_error(ls)),
                Some(level) => {
                    let rest2 = trim_start(rest.skip(c + 1));
                    match find_first(rest2, ':') {
                        None => Err("Missing ':' separator between component and message"@),
                        Some(p) => {
                            let component = trim(rest2.take(p));
                            if component.len() == 0 {
                                Err("Component name is empty"@)
                            } else {
                                Ok(
                                    LineFields {
                                        timestamp: dt,
                                        level,
                                        component,
                                        message: trim(rest2.skip(p + 1)),
                                    },
                                )
                            }
                        },
                    }
                },
            }
        },
    }
}

/// What parsing `line` gives: the fields of the line, or the reason it is
/// refused. A line whose first 19 bytes end inside a character cannot start
/// with a timestamp, and is refused as such.
pub open spec fn parse_line_spec(line: Seq<char>) -> Result<LineFields, Seq<char>> {
    let t = trim(line);
    if t.len() == 0 {
        Err("Empty line"@)
    } else if byte_len(t) < 19 {
        Err("Line too short to contain a timestamp"@)
    } else if !is_boundary(t, 19) {
        Err("Invalid timestamp: DateTime format must be YYYY-MM-DD HH:MM:SS"@)
    } else {
        let k = char_index(t, 19);
        match parse_spec(t.take(k)) {
            Err(e) => Err("Invalid timestamp: "@ + e),
            Ok(dt) => {
                let rest = trim_start(t.skip(k));
                if rest.len() == 0 || rest[0] != '[' {
                    Err("Expected '[' after timestamp for log level"@)
                } else {
                    parse_after_bracket(dt, rest)
                }
            },
        }
    }
}

/// The line `YYYY-MM-DD HH:MM:SS [LEVEL] component: message` for `f`.
pub open spec fn render_line(f: LineFields) -> Seq<char> {
    display_spec(f.timestamp) + seq![' ', '['] + f.level.name() + seq![']', ' '] + f.component
        + seq![':', ' '] + f.message
}

/// `m` preceded by a space, or nothing for an empty `m`: what follows the
/// `:` of a rendered line once the line is trimmed.
spec fn message_part(m: Seq<char>) -> Seq<char> {
    if m.len() > 0 {
        seq![' '] + m
    } else {
        Seq::empty()
    }
}

proof fn lemma_message_part_trims(m: Seq<char>)
    requires
        trim(m) == m,
    ensures
        trim(message_part(m)) == m,
{
    if m.len() > 0 {
        let m2 = message_part(m);
        lemma_trimmed_ends(m);
        assert(m2[1] == m[0]);
        assert(m2[m2.len() - 1] == m[m.len() - 1]);
        lemma_trim_known(m2, 1, m2.len() as int);
        assert(m2.subrange(1, m2.len() as int) =~= m);
    } else {
        assert(leading_ws(Seq::<char>::empty()) == 0);
        assert(trailing_ws(Seq::<char>::empty()) == 0);
        assert(trim(Seq::<char>::empty()) =~= Seq::<char>::empty());
    }
}

/// No level name holds `]`.
proof fn lemma_name_no_bracket(l: LogLevel)
    ensures
        forall|j: int| 0 <= j < l.name().len() ==> #[trigger] l.name()[j] != ']',
        4 <= l.name().len() <= 5,
{
    reveal_strlit("TRACE");
    reveal_strlit("DEBUG");
    reveal_strlit("INFO");
    reveal_strlit("WARN");
    reveal_strlit("ERROR");
    reveal_strlit("FATAL");
}

/// The part of a rendered line from `[` on parses to its fields.
proof fn lemma_bracket_part_parses(
    dt: DateTime,
    level: LogLevel,
    c: Seq<char>,
    m: Seq<char>,
)
    requires
        c.len() > 0,
        trim(c) == c,
        !c.contains(':'),
        trim(m) == m,
    ensures
        parse_after_bracket(
            dt,
            seq!['['] + level.name() + seq![']', ' '] + c + seq![':'] + message_part(m),
        ) == Ok::<LineFields, Seq<char>>(
            LineFields { timestamp: dt, level, component: c, message: m },
        ),
{
    let n = level.name();
    let m2 = message_part(m);
    let rest = seq!['['] + n + seq![']', ' '] + c + seq![':'] + m2;
    lemma_name_no_bracket(level);
    assert forall|j: int| 0 <= j < n.len() + 1 implies #[trigger] rest[j] != ']' by {
        if j > 0 {
            assert(rest[j] == n[j - 1]);
        }
    }
    assert(rest[n.len() as int + 1] == ']');
    lemma_find_first(rest, ']', n.len() as int + 1);
    assert(rest.subrange(1, n.len() as int + 1) =~= n);
    level.lemma_name_parses();
    let after = rest.skip(n.len() as int + 2);
    assert(after =~= seq![' '] + (c + seq![':'] + m2));
    lemma_trimmed_ends(c);
    assert(after[1] == c[0]);
    assert forall|j: int| 0 <= j < 1 implies is_ws(#[trigger] after[j]) by {}
    lemma_leading_ws(after, 1);
    let rest2 = c + seq![':'] + m2;
    assert(trim_start(after) =~= rest2);
    assert forall|j: int| 0 <= j < c.len() implies #[trigger] rest2[j] != ':' by {
        assert(rest2[j] == c[j]);
        if c[j] == ':' {
            assert(c.contains(':'));
        }
    }
    assert(rest2[c.len() as int] == ':');
    lemma_find_first(rest2, ':', c.len() as int);
    assert(rest2.take(c.len() as int) =~= c);
    assert(rest2.skip(c.len() as int + 1) =~= m2);
    lemma_message_part_trims(m);
}

/// The part of a rendered line after the timestamp and its space, once the
/// line is trimmed.
spec fn rendered_rest(f: LineFields) -> Seq<char> {
    seq!['['] + f.level.name() + seq![']', ' '] + f.component + seq![':'] + message_part(f.message)
}

/// Trimming a rendered line removes at most the space before an empty
/// message.
proof fn lemma_rendered_trim(f: LineFields)
    requires
        f.timestamp.is_valid(),
        trim(f.message) == f.message,
    ensures
        trim(render_line(f)) == display_spec(f.timestamp) + seq![' '] + rendered_rest(f),
{
    let d = display_spec(f.timestamp);
    let m = f.message;
    let line = render_line(f);
    let t = d + seq![' '] + rendered_rest(f);
    lemma_display_layout(f.timestamp);
    assert(!is_ws(line[0])) by {
        assert(line[0] == d[0]);
    }
    if m.len() > 0 {
        lemma_trimmed_ends(m);
        assert(line[line.len() - 1] == m[m.len() - 1]);
        lemma_trim_known(line, 0, line.len() as int);
        assert(line =~= t);
        assert(line.subrange(0, line.len() as int) =~= line);
    } else {
        assert(line[line.len() - 1] == ' ');
        assert(line[line.len() - 2] == ':');
        assert forall|j: int| line.len() - 1 <= j < line.len() implies is_ws(#[trigger] line[j]) by {}
        lemma_trim_known(line, 0, line.len() - 1);
        assert(line.subrange(0, line.len() - 1) =~= t);
    }
}

/// A trimmed rendered line: 19 bytes of timestamp, then a space and the rest.
proof fn lemma_rendered_timestamp(d: Seq<char>, r: Seq<char>)
    requires
        d.len() == 19,
        forall|i: int| 0 <= i < 19 ==> (#[trigger] d[i] as u32) < 0x80,
        r.len() > 0,
        r[0] == '[',
    ensures
        ({
            let t = d + seq![' '] + r;
            &&& t.len() > 0
            &&& byte_len(t) >= 19
            &&& is_boundary(t, 19)
            &&& char_index(t, 19) == 19
            &&& t.take(19) == d
            &&& trim_start(t.skip(19)) == r
        }),
{
    let t = d + seq![' '] + r;
    assert(t.take(19) =~= d);
    lemma_byte_len_ascii(d);
    lemma_char_index_unique(t, 19, 19);
    assert(t.take(19) =~= t.subrange(0, 19));
    lemma_byte_len_subrange(t, 0, 19);
    let after = t.skip(19);
    assert(after =~= seq![' '] + r);
    assert(after[1] == '[');
    assert forall|j: int| 0 <= j < 1 implies is_ws(#[trigger] after[j]) by {}
    lemma_leading_ws(after, 1);
    assert(trim_start(after) =~= r);
}

/// Law: a line rendered from a valid timestamp, a level, a non-empty
/// component without `:` or surrounding whitespace, and a message without
/// surrounding whitespace parses back to those fields.
pub proof fn lemma_render_then_parse(f: LineFields)
    requires
        f.timestamp.is_valid(),
        f.component.len() > 0,
        trim(f.component) == f.component,
        !f.component.contains(':'),
        trim(f.message) == f.message,
    ensures
        parse_line_spec(render_line(f)) == Ok::<LineFields, Seq<char>>(f),
{
    let d = display_spec(f.timestamp);
    lemma_display_layout(f.timestamp);
    lemma_display_then_parse(f.timestamp);
    lemma_rendered_trim(f);
    lemma_rendered_timestamp(d, rendered_rest(f));
    lemma_bracket_part_parses(f.timestamp, f.level, f.component, f.message);
}

/// Law: a line that parses gives a timestamp within its ranges, a non-empty
/// component without `:` or surrounding whitespace, and a message without
/// surrounding whitespace (so rendering and parsing it again gives the same
/// fields); a line that is refused always comes with a reason.
pub proof fn lemma_parse_line_results(line: Seq<char>)
    ensures
        parse_line_spec(line) matches Ok(f) ==> {
            &&& f.timestamp.is_valid()
            &&& f.component.len() > 0
            &&& trim(f.component) == f.component
            &&& !f.component.contains(':')
            &&& trim(f.message) == f.message
        },
        parse_line_spec(line) matches Err(r) ==> r.len() > 0,
{
    reveal_strlit("Empty line");
    reveal_strlit("Line too short to contain a timestamp");
    reveal_strlit("Invalid timestamp: ");
    reveal_strlit("Invalid timestamp: DateTime format must be YYYY-MM-DD HH:MM:SS");
    reveal_strlit("Expected '[' after timestamp for log level");
    reveal_strlit("Missing closing ']' for log level");
    reveal_strlit("Invalid log level: ");
    reveal_strlit("Missing ':' separator between component and message");
    reveal_strlit("Component name is empty");
    let t = trim(line);
    if t.len() > 0 && byte_len(t) >= 19 && is_boundary(t, 19) {
        let k = char_index(t, 19);
        lemma_parsed_is_valid(t.take(k));
        if let Ok(dt) = parse_spec(t.take(k)) {
            let rest = trim_start(t.skip(k));
            if rest.len() > 0 && rest[0] == '[' {
                if let Some(c) = find_first(rest, ']') {
                    let ls = rest.subrange(1, c);
                    if let Some(level) = LogLevel::parse_spec(ls) {
                        let rest2 = trim_start(rest.skip(c + 1));
                        lemma_find_first_found(rest2, ':');
                        if let Some(p) = find_first(rest2, ':') {
                            let x = rest2.take(p);
                            let m = rest2.skip(p + 1);
                            lemma_trim_idempotent(x);
                            lemma_trim_idempotent(m);
                            lemma_trim_within(x);
                            assert forall|i: int| 0 <= i < trim(x).len() implies #[trigger] trim(x)[i]
                                != ':' by {
                                assert(trim(x)[i] == x[leading_ws(x) + i]);
                            }
                        }
                    }
                }
            }
        }
    }
}

/// `t` is laid out as a log line: a 19-byte timestamp text `ts`, whitespace
/// `gap`, `[`, a level name `l` without `]`, `]`, a component part `c`
/// without `:`, `:`, and the message part `m`.
pub open spec fn line_layout(
    t: Seq<char>,
    ts: Seq<char>,
    gap: Seq<char>,
    l: Seq<char>,
    c: Seq<char>,
    m: Seq<char>,
) -> bool {
    &&& t == ts + gap + seq!['['] + l + seq![']'] + c + seq![':'] + m
    &&& byte_len(ts) == 19
    &&& forall|i: int| 0 <= i < gap.len() ==> is_ws(#[trigger] gap[i])
    &&& forall|i: int| 0 <= i < l.len() ==> #[trigger] l[i] != ']'
    &&& forall|i: int| 0 <= i < c.len() ==> #[trigger] c[i] != ':'
}

/// The fields of a laid-out line whose parts are well formed.
pub open spec fn layout_fields(ts: Seq<char>, l: Seq<char>, c: Seq<char>, m: Seq<char>) -> LineFields {
    LineFields {
        timestamp: parse_spec(ts)->Ok_0,
        level: LogLevel::parse_spec(l)->0,
        component: trim(c),
        message: trim(m),
    }
}

/// The parts of a laid-out line are well formed: the timestamp and the level
/// parse, and the component is not blank.
pub open spec fn layout_parts_parse(ts: Seq<char>, l: Seq<char>, c: Seq<char>) -> bool {
    &&& parse_spec(ts) is Ok
    &&& LogLevel::parse_spec(l) is Some
    &&& trim(c).len() > 0
}

/// Parsing a laid-out line parses its parts.
#[verifier::spinoff_prover]
#[verifier::rlimit(60)]
proof fn lemma_layout_parses(
    line: Seq<char>,
    ts: Seq<char>,
    gap: Seq<char>,
    l: Seq<char>,
    c: Seq<char>,
    m: Seq<char>,
)
    requires
        line_layout(trim(line), ts, gap, l, c, m),
    ensures
        layout_parts_parse(ts, l, c) ==> parse_line_spec(line) == Ok::<LineFields, Seq<char>>(
            layout_fields(ts, l, c, m),
        ),
        !layout_parts_parse(ts, l, c) ==> parse_line_spec(line) is Err,
{
    let t = trim(line);
    let k = ts.len() as int;
    let x = seq!['['] + l + seq![']'] + c + seq![':'] + m;
    assert(t =~= ts + (gap + x));
    assert(t.take(k) =~= ts);
    lemma_char_index_unique(t, 19, k);
    lemma_byte_len_concat(ts, gap + x);
    assert(t.len() > 0);
    assert(t.skip(k) =~= gap + x);
    assert(x[0] == '[');
    lemma_trim_start_concat(gap, x);
    lemma_leading_ws(gap, gap.len() as int);
    assert(trim_start(gap) =~= Seq::<char>::empty());
    let rest = trim_start(t.skip(k));
    assert(rest =~= x);
    let cc: int = 1 + l.len() as int;
    assert forall|j: int| 0 <= j < cc implies #[trigger] rest[j] != ']' by {
        if j > 0 {
            assert(rest[j] == l[j - 1]);
        }
    }
    assert(rest[cc] == ']');
    lemma_find_first(rest, ']', cc);
    assert(rest.subrange(1, cc) =~= l);
    let z = seq![':'] + m;
    let y = c + z;
    assert(rest.skip(cc + 1) =~= y);
    assert(z[0] == ':');
    lemma_trim_start_concat(c, z);
    let rest2 = trim_start(y);
    let tc = trim_start(c);
    lemma_leading_ws_bound(c);
    assert forall|j: int| 0 <= j < tc.len() implies #[trigger] rest2[j] != ':' by {
        assert(rest2[j] == tc[j]);
        assert(tc[j] == c[leading_ws(c) + j]);
    }
    assert(rest2[tc.len() as int] == ':');
    lemma_find_first(rest2, ':', tc.len() as int);
    assert(rest2.take(tc.len() as int) =~= tc);
    assert(rest2.skip(tc.len() as int + 1) =~= m);
    lemma_trim_after_trim_start(c);
}

/// The parts of a line that parses, laid out.
#[verifier::spinoff_prover]
#[verifier::rlimit(60)]
proof fn lemma_parsed_line_layout(line: Seq<char>) -> (parts: (
    Seq<char>,
    Seq<char>,
    Seq<char>,
    Seq<char>,
    Seq<char>,
))
    requires
        parse_line_spec(line) is Ok,
    ensures
        line_layout(trim(line), parts.0, parts.1, parts.2, parts.3, parts.4),
{
    let t = trim(line);
    let k = char_index(t, 19);
    lemma_char_index_props(t, 19);
    let ts = t.take(k);
    let u = t.skip(k);
    let g = leading_ws(u) as int;
    lemma_leading_ws_bound(u);
    let gap = u.take(g);
    let rest = trim_start(u);
    let cc = find_first(rest, ']')->0;
    lemma_find_first_found(rest, ']');
    let l = rest.subrange(1, cc);
    let r1 = rest.skip(cc + 1);
    let g2 = leading_ws(r1) as int;
    lemma_leading_ws_bound(r1);
    let rest2 = trim_start(r1);
    let p = find_first(rest2, ':')->0;
    lemma_find_first_found(rest2, ':');
    let c = r1.take(g2 + p);
    let m = r1.skip(g2 + p + 1);
    assert(rest2[p] == r1[g2 + p]);
    assert(r1 =~= c + seq![':'] + m);
    assert(rest =~= seq!['['] + l + seq![']'] + r1);
    assert(u =~= gap + rest);
    assert(t =~= ts + u);
    assert(t =~= ts + gap + seq!['['] + l + seq![']'] + c + seq![':'] + m);
    assert forall|i: int| 0 <= i < gap.len() implies is_ws(#[trigger] gap[i]) by {
        assert(gap[i] == u[i]);
    }
    assert forall|i: int| 0 <= i < l.len() implies #[trigger] l[i] != ']' by {
        assert(l[i] == rest[1 + i]);
    }
    assert forall|i: int| 0 <= i < c.len() implies #[trigger] c[i] != ':' by {
        assert(c[i] == r1[i]);
        if i < g2 {
            assert(is_ws(r1[i]));
        } else {
            assert(r1[i] == rest2[i - g2]);
        }
    }
    assert(line_layout(t, ts, gap, l, c, m));
    (ts, gap, l, c, m)
}

/// Law: a line parses exactly when, once trimmed, it is laid out as
/// `TS gap [L] C: M` with a timestamp `TS` that parses, a level name `L`
/// that parses, and a component part `C` that is not blank; the entry then
/// holds that timestamp and level, `C` trimmed and `M` trimmed.
pub proof fn lemma_parse_line_characterized(line: Seq<char>)
    ensures
        parse_line_spec(line) is Ok <==> exists|
            ts: Seq<char>,
            gap: Seq<char>,
            l: Seq<char>,
            c: Seq<char>,
            m: Seq<char>,
        |
            #[trigger] line_layout(trim(line), ts, gap, l, c, m) && layout_parts_parse(ts, l, c),
        forall|ts: Seq<char>, gap: Seq<char>, l: Seq<char>, c: Seq<char>, m: Seq<char>|
            #[trigger] line_layout(trim(line), ts, gap, l, c, m) && parse_line_spec(line) is Ok
                ==> layout_parts_parse(ts, l, c) && parse_line_spec(line) == Ok::<
                LineFields,
                Seq<char>,
            >(layout_fields(ts, l, c, m)),
{
    assert forall|ts: Seq<char>, gap: Seq<char>, l: Seq<char>, c: Seq<char>, m: Seq<char>|
        #[trigger] line_layout(trim(line), ts, gap, l, c, m) && parse_line_spec(line) is Ok implies layout_parts_parse(
        ts,
        l,
        c,
    ) && parse_line_spec(line) == Ok::<LineFields, Seq<char>>(layout_fields(ts, l, c, m)) by {
        lemma_layout_parses(line, ts, gap, l, c, m);
    }
    if parse_line_spec(line) is Ok {
        let (ts, gap, l, c, m) = lemma_parsed_line_layout(line);
        lemma_layout_parses(line, ts, gap, l, c, m);
    } else {
        assert forall|ts: Seq<char>, gap: Seq<char>, l: Seq<char>, c: Seq<char>, m: Seq<char>|
            #[trigger] line_layout(trim(line), ts, gap, l, c, m) implies !layout_parts_parse(
            ts,
            l,
            c,
        ) by {
            lemma_layout_parses(line, ts, gap, l, c, m);
        }
    }
}

/// The entry `e` carries `fields` and names `source_file`.
pub open spec fn entry_matches(e: LogEntry, fields: LineFields, source_file: Seq<char>) -> bool {
    &&& e.timestamp == fields.timestamp
    &&& e.level == fields.level
    &&& e.component@ == fields.component
    &&& e.message@ == fields.message
    &&& e.source_file@ == source_file
}

/// Fields located in the character vector of a line.
struct Located {
    timestamp: DateTime,
    level: LogLevel,
    comp_from: usize,
    comp_to: usize,
    msg_from: usize,
    msg_to: usize,
}

/// Parses the part of `v[from..to]` after its `[`.
fn parse_after_bracket_exec(dt: DateTime, v: &Vec<char>, from: usize, to: usize) -> (r: Result<
    Located,
    Vec<char>,
>)
    requires
        from < to <= v.len(),
        v@[from as int] == '[',
    ensures
        r matches Err(e) ==> parse_after_bracket(dt, v@.subrange(from as int, to as int)) == Err::<
            LineFields,
            Seq<char>,
        >(e@),
        r matches Ok(l) ==> l.comp_from <= l.comp_to <= v.len() && l.msg_from <= l.msg_to
            <= v.len() && parse_after_bracket(dt, v@.subrange(from as int, to as int)) == Ok::<
            LineFields,
            Seq<char>,
        >(
            LineFields {
                timestamp: l.timestamp,
                level: l.level,
                component: v@.subrange(l.comp_from as int, l.comp_to as int),
                message: v@.subrange(l.msg_from as int, l.msg_to as int),
            },
        ),
{
    let ghost rest = v@.subrange(from as int, to as int);
    let c = match find_char(v, from, to, ']') {
        None => {
            return Err(chars_of("Missing closing ']' for log level"));
        },
        Some(c) => c,
    };
    assert(c >= 1);
    let level = match LogLevel::parse_chars(v, from + 1, from + c) {
        None => {
            let mut e = chars_of("Invalid log level: ");
            LogLevel::push_parse_error(&mut e, v, from + 1, from + c);
            assert(v@.subrange(from + 1, from + c) =~= rest.subrange(1, c as int));
            return Err(e);
        },
        Some(l) => l,
    };
    assert(v@.subrange(from + 1, from + c) =~= rest.subrange(1, c as int));
    let (r2, _r2end) = trim_bounds(v, from + c + 1, to);
    let ghost rest2 = v@.subrange(r2 as int, to as int);
    assert(rest.skip(c + 1) =~= v@.subrange(from + c + 1, to as int));
    assert(rest2 =~= trim_start(rest.skip(c + 1)));
    let p = match find_char(v, r2, to, ':') {
        None => {
            return Err(chars_of("Missing ':' separator between component and message"));
        },
        Some(p) => p,
    };
    let (ca, cb) = trim_bounds(v, r2, r2 + p);
    assert(rest2.take(p as int) =~= v@.subrange(r2 as int, r2 + p));
    if ca == cb {
        return Err(chars_of("Component name is empty"));
    }
    let (ma, mb) = trim_bounds(v, r2 + p + 1, to);
    assert(rest2.skip(p + 1) =~= v@.subrange(r2 + p + 1, to as int));
    Ok(Located { timestamp: dt, level, comp_from: ca, comp_to: cb, msg_from: ma, msg_to: mb })
}

/// Parses the line `v[from..to]`.
fn parse_line_exec(v: &Vec<char>, from: usize, to: usize) -> (r: Result<Located, Vec<char>>)
    requires
        from <= to <= v.len(),
    ensures
        r matches Err(e) ==> parse_line_spec(v@.subrange(from as int, to as int)) == Err::<
            LineFields,
            Seq<char>,
        >(e@),
        r matches Ok(l) ==> l.comp_from <= l.comp_to <= v.len() && l.msg_from <= l.msg_to
            <= v.len() && parse_line_spec(v@.subrange(from as int, to as int)) == Ok::<
            LineFields,
            Seq<char>,
        >(
            LineFields {
                timestamp: l.timestamp,
                level: l.level,
                component: v@.subrange(l.comp_from as int, l.comp_to as int),
                message: v@.subrange(l.msg_from as int, l.msg_to as int),
            },
        ),
{
    let ghost line = v@.subrange(from as int, to as int);
    let (a, b) = trim_bounds(v, from, to);
    let ghost t = v@.subrange(a as int, b as int);
    if a == b {
        return Err(chars_of("Empty line"));
    }
    if !byte_len_at_least(v, a, b, 19) {
        return Err(chars_of("Line too short to contain a timestamp"));
    }
    let k = match index_at_byte(v, a, b, 19) {
        Some(k) => k,
        None => {
            return Err(chars_of("Invalid timestamp: DateTime format must be YYYY-MM-DD HH:MM:SS"));
        },
    };
    proof {
        lemma_char_index_props(t, 19);
        assert(t.take(k as int) =~= v@.subrange(a as int, a + k));
        assert(t.take(k as int) =~= t.subrange(0, k as int));
        lemma_byte_len_subrange(t, 0, k as int);
    }
    let dt = match DateTime::parse_chars(v, a, a + k) {
        Ok(dt) => dt,
        Err(e) => {
            let mut m = chars_of("Invalid timestamp: ");
            push_chars(&mut m, &e, 0, e.len());
            assert(e@.subrange(0, e.len() as int) =~= e@);
            return Err(m);
        },
    };
    let (r, _rend) = trim_bounds(v, a + k, b);
    assert(t.skip(k as int) =~= v@.subrange(a + k, b as int));
    let ghost rest = v@.subrange(r as int, b as int);
    assert(rest =~= trim_start(t.skip(k as int)));
    if r == b || v[r] != '[' {
        return Err(chars_of("Expected '[' after timestamp for log level"));
    }
    assert(rest[0] == v@[r as int]);
    parse_after_bracket_exec(dt, v, r, b)
}

/// Parses `YYYY-MM-DD HH:MM:SS [LEVEL] component: message`. Surrounding
/// whitespace is ignored, and so is whitespace around the level, component
/// and message; the error records the file, line number, original text and
/// reason.
pub fn parse_log_line(line: &str, source_file: &str, line_number: usize) -> (r: Result<
    LogEntry,
    ParseError,
>)
    ensures
        r matches Ok(e) ==> parse_line_spec(line@) matches Ok(f) && entry_matches(
            e,
            f,
            source_file@,
        ),
        r matches Err(err) ==> parse_line_spec(line@) == Err::<LineFields, Seq<char>>(
            err.reason@,
        ) && err.file@ == source_file@ && err.line_number == line_number && err.content@
            == line@,
{
    let v = chars_of(line);
    assert(v@.subrange(0, v.len() as int) =~= line@);
    match parse_line_exec(&v, 0, v.len()) {
        Ok(l) => Ok(
            LogEntry {
                timestamp: l.timestamp,
                level: l.level,
                component: string_of_range(&v, l.comp_from, l.comp_to),
                message: string_of_range(&v, l.msg_from, l.msg_to),
                source_file: string_from_chars(&chars_of(source_file)),
            },
        ),
        Err(e) => Err(
            ParseError {
                file: string_from_chars(&chars_of(source_file)),
                line_number,
                content: string_from_chars(&v),
                reason: string_from_chars(&e),
            },
        ),
    }
}

} // verus!
