//! Text and JSON reports of statistics.

use vstd::prelude::*;
use crate::datetime::{display_spec, DateTime};
use crate::errors::ParseError;
use crate::log_level::LogLevel;
use crate::statistics::{component_counts_view, hour_counts_view, level_counts_view, Statistics};
use crate::tally::{
    count_in, counts_descending, lemma_prefix_at_least, lemma_sort_by_count, sort_by_count,
};
use crate::text::{
    decimal, digit, digit_char, chars_of, lemma_decimal_digits, lemma_digit_char, push_chars, push_decimal, push_repeat, push_str, push_zero_padded, string_from_chars,
    zero_padded,
};

verus! {

// ---------------------------------------------------------------------------
// Digit grouping
// ---------------------------------------------------------------------------

/// The digits `d` with a comma before every group of three counted from the
/// right.
pub open spec fn grouped(d: Seq<char>) -> Seq<char>
    decreases d.len(),
{
    if d.len() <= 3 {
        d
    } else {
        grouped(d.take(d.len() - 3)) + seq![','] + d.skip(d.len() - 3)
    }
}

/// `n` in decimal with comma separators: `1234567` is `1,234,567`.
pub open spec fn number_spec(n: nat) -> Seq<char> {
    grouped(decimal(n))
}

/// Appends `grouped(d[..end])`.
fn push_grouped(out: &mut Vec<char>, d: &Vec<char>, end: usize)
    requires
        end <= d.len(),
    ensures
        final(out)@ == old(out)@ + grouped(d@.take(end as int)),
    decreases end,
{
    let ghost s = d@.take(end as int);
    if end <= 3 {
        push_chars(out, d, 0, end);
        assert(d@.subrange(0, end as int) =~= s);
    } else {
        push_grouped(out, d, end - 3);
        out.push(',');
        push_chars(out, d, end - 3, end);
        assert(s.take(s.len() - 3) =~= d@.take(end - 3));
        assert(s.skip(s.len() - 3) =~= d@.subrange(end - 3, end as int));
        assert(final(out)@ =~= old(out)@ + grouped(s));
    }
}

/// Appends `n` with comma separators.
pub fn push_number(out: &mut Vec<char>, n: usize)
    ensures
        final(out)@ == old(out)@ + number_spec(n as nat),
{
    let mut d: Vec<char> = Vec::new();
    push_decimal(&mut d, n as u64);
    assert(d@.take(d.len() as int) =~= d@);
    push_grouped(out, &d, d.len());
}

/// Formats `n` with comma separators: `1234567` becomes `1,234,567`.
pub fn format_number(n: usize) -> (s: String)
    ensures
        s@ == number_spec(n as nat),
{
    let mut out: Vec<char> = Vec::new();
    push_number(&mut out, n);
    assert(out@ =~= number_spec(n as nat));
    string_from_chars(&out)
}

/// Removing the commas from a grouped number gives back its digits.
pub proof fn lemma_grouped_digits(d: Seq<char>)
    requires
        forall|i: int| 0 <= i < d.len() ==> #[trigger] d[i] != ',',
    ensures
        grouped(d).filter(|c: char| c != ',') == d,
    decreases d.len(),
{
    let keep = |c: char| c != ',';
    if d.len() <= 3 {
        lemma_filter_keeps_all(d, keep);
    } else {
        let a = d.take(d.len() - 3);
        let b = d.skip(d.len() - 3);
        lemma_grouped_digits(a);
        lemma_filter_keeps_all(b, keep);
        Seq::filter_distributes_over_add(grouped(a) + seq![','], b, keep);
        Seq::filter_distributes_over_add(grouped(a), seq![','], keep);
        assert(seq![','].filter(keep) =~= Seq::<char>::empty()) by {
            reveal_with_fuel(Seq::<_>::filter, 2);
            assert(seq![','].drop_last() =~= Seq::<char>::empty());
            assert(!keep(','));
            assert(seq![','].last() == ',');
        }
        assert(a + b =~= d);
    }
}

/// A filter that keeps every element changes nothing.
proof fn lemma_filter_keeps_all(s: Seq<char>, keep: spec_fn(char) -> bool)
    requires
        forall|i: int| 0 <= i < s.len() ==> keep(#[trigger] s[i]),
    ensures
        s.filter(keep) == s,
    decreases s.len(),
{
    reveal(Seq::filter);
    if s.len() > 0 {
        assert forall|i: int| 0 <= i < s.drop_last().len() implies keep(
            #[trigger] s.drop_last()[i],
        ) by {
            assert(s.drop_last()[i] == s[i]);
        }
        lemma_filter_keeps_all(s.drop_last(), keep);
        assert(keep(s[s.len() - 1]));
        assert(s.drop_last().push(s.last()) =~= s);
    }
}

// ---------------------------------------------------------------------------
// Ordering components by count
// ---------------------------------------------------------------------------

/// The positions of a count list, each with its count.
pub open spec fn indexed_counts(v: Seq<(String, usize)>) -> Seq<(int, nat)> {
    Seq::new(v.len(), |j: int| (j, v[j].1 as nat))
}

/// Position-count pairs as integers.
pub open spec fn pairs_view(v: Seq<(usize, usize)>) -> Seq<(int, nat)> {
    v.map_values(|p: (usize, usize)| (p.0 as int, p.1 as nat))
}

/// The positions of the count list `v` with their counts, largest count
/// first; equal counts keep the order of `v`.
pub fn order_by_count(v: &Vec<(String, usize)>) -> (order: Vec<(usize, usize)>)
    ensures
        pairs_view(order@) == sort_by_count(indexed_counts(v@)),
        forall|k: int| 0 <= k < order.len() ==> (#[trigger] order@[k]).0 < v.len(),
{
    let ghost t = indexed_counts(v@);
    let mut order: Vec<(usize, usize)> = Vec::new();
    let mut i: usize = 0;
    assert(t.take(0) =~= Seq::<(int, nat)>::empty());
    assert(pairs_view(order@) =~= sort_by_count(t.take(0)));
    while i < v.len()
        invariant
            i <= v.len(),
            t == indexed_counts(v@),
            pairs_view(order@) == sort_by_count(t.take(i as int)),
            forall|k: int| 0 <= k < order.len() ==> (#[trigger] order@[k]).0 < i,
        decreases v.len() - i,
    {
        let c = v[i].1;
        let ghost s = pairs_view(order@);
        let mut p: usize = 0;
        while p < order.len() && order[p].1 >= c
            invariant
                p <= order.len(),
                s == pairs_view(order@),
                forall|j: int| 0 <= j < p ==> (#[trigger] s[j]).1 >= c,
            decreases order.len() - p,
        {
            p += 1;
        }
        proof {
            lemma_prefix_at_least(s, c as nat, p as int);
            assert(t.take(i + 1).drop_last() =~= t.take(i as int));
            assert(t.take(i + 1).last() == (i as int, c as nat));
        }
        let ghost before = order@;
        order.insert(p, (i, c));
        proof {
            assert(pairs_view(order@) =~= s.take(p as int) + seq![(i as int, c as nat)] + s.skip(
                p as int,
            ));
            assert forall|k: int| 0 <= k < order.len() implies (#[trigger] order@[k]).0 < i + 1 by {
                if k < p {
                    assert(order@[k] == before[k]);
                } else if k > p {
                    assert(order@[k] == before[k - 1]);
                }
            }
        }
        i += 1;
    }
    assert(t.take(v.len() as int) =~= t);
    order
}

// ---------------------------------------------------------------------------
// Text report
// ---------------------------------------------------------------------------

/// The shares that a report prints, rendered as decimal text by the caller:
/// the error rate as a percentage, and the percentage of the entries at each
/// level (from `Trace` to `Fatal`) and of each component (in the order of
/// `Statistics::entries_by_component`).
pub struct Percentages {
    pub error_rate_percent: String,
    pub level_percents: Vec<String>,
    pub component_percents: Vec<String>,
}

/// `n` spaces.
pub open spec fn spaces(n: nat) -> Seq<char> {
    Seq::new(n, |_i: int| ' ')
}

/// `s` followed by spaces up to `w` characters (`{:<w}`).
pub open spec fn pad_right(s: Seq<char>, w: nat) -> Seq<char> {
    if s.len() >= w {
        s
    } else {
        s + spaces((w - s.len()) as nat)
    }
}

/// `s` preceded by spaces up to `w` characters (`{:>w}`).
pub open spec fn pad_left(s: Seq<char>, w: nat) -> Seq<char> {
    if s.len() >= w {
        s
    } else {
        spaces((w - s.len()) as nat) + s
    }
}

/// The period line of the text report.
pub open spec fn period_text(st: Statistics) -> Seq<char> {
    match (st.first_entry, st.last_entry) {
        (Some(f), Some(l)) => "Period: "@ + display_spec(f) + " to "@ + display_spec(l) + seq![
            '\n',
        ],
        _ => "Period: (no entries)\n"@,
    }
}

/// The peak-hour line of the text report.
pub open spec fn peak_text(st: Statistics) -> Seq<char> {
    match st.peak_hour {
        Some(h) => "Peak Hour:        "@ + zero_padded(h as nat, 2) + ":00 ("@ + number_spec(
            count_in(hour_counts_view(st.entries_by_hour@), h),
        ) + " entries)\n"@,
        None => "Peak Hour:        (none)\n"@,
    }
}

/// The most-active line of the text report.
pub open spec fn active_text(st: Statistics) -> Seq<char> {
    match st.most_active_component {
        Some(c) => "Most Active:      "@ + c@ + " ("@ + number_spec(
            count_in(component_counts_view(st.entries_by_component@), c@),
        ) + " entries)\n"@,
        None => "Most Active:      (none)\n"@,
    }
}

/// The summary section of the text report.
pub open spec fn summary_text(st: Statistics, pct: Percentages) -> Seq<char> {
    "\nSUMMARY\n-------\nTotal Entries:    "@ + number_spec(st.total_entries as nat) + seq!['\n']
        + "Error Rate:       "@ + pct.error_rate_percent@ + "%\n"@ + peak_text(st) + active_text(
        st,
    )
}

/// The row of the level of rank `r` in the text report.
pub open spec fn level_row(st: Statistics, pct: Percentages, r: nat) -> Seq<char> {
    let l = LogLevel::from_rank(r);
    pad_right(l.name(), 10) + seq![' '] + pad_left(
        number_spec(count_in(level_counts_view(st.entries_by_level@), l)),
        6,
    ) + "   ("@ + pct.level_percents@[r as int]@ + "%)\n"@
}

/// The rows of the levels of rank below `n`.
pub open spec fn level_rows(st: Statistics, pct: Percentages, n: nat) -> Seq<char>
    decreases n,
{
    if n == 0 {
        Seq::empty()
    } else {
        level_rows(st, pct, (n - 1) as nat) + level_row(st, pct, (n - 1) as nat)
    }
}

/// The row of the component at position `e.0`, with count `e.1`.
pub open spec fn component_row(st: Statistics, pct: Percentages, e: (int, nat)) -> Seq<char> {
    pad_right(st.entries_by_component@[e.0].0@, 16) + seq![' '] + pad_left(number_spec(e.1), 6)
        + "   ("@ + pct.component_percents@[e.0]@ + "%)\n"@
}

/// The rows of the components in `order`.
pub open spec fn component_rows(st: Statistics, pct: Percentages, order: Seq<(int, nat)>) -> Seq<
    char,
>
    decreases order.len(),
{
    if order.len() == 0 {
        Seq::empty()
    } else {
        component_rows(st, pct, order.drop_last()) + component_row(st, pct, order.last())
    }
}

/// The text report: period, summary, a row per level, a row per component
/// (busiest first) and the number of lines that did not parse.
pub open spec fn text_report_spec(st: Statistics, parse_errors: nat, pct: Percentages) -> Seq<
    char,
> {
    "================== LOG ANALYSIS REPORT ==================\n"@ + period_text(st)
        + summary_text(st, pct) + "\nBY LOG LEVEL\n------------\n"@ + level_rows(st, pct, 6)
        + "\nBY COMPONENT\n------------\n"@ + component_rows(
        st,
        pct,
        sort_by_count(indexed_counts(st.entries_by_component@)),
    ) + "\nParse Errors: "@ + decimal(parse_errors) + " lines skipped\n"@
        + "=========================================================\n"@
}

/// Appends `s` padded on the right with spaces to `w` characters.
fn push_pad_right(out: &mut Vec<char>, s: &Vec<char>, w: usize)
    ensures
        final(out)@ == old(out)@ + pad_right(s@, w as nat),
{
    push_chars(out, s, 0, s.len());
    assert(s@.subrange(0, s.len() as int) =~= s@);
    if s.len() < w {
        push_repeat(out, ' ', w - s.len());
    }
    assert(final(out)@ =~= old(out)@ + pad_right(s@, w as nat));
}

/// Appends `s` padded on the left with spaces to `w` characters.
fn push_pad_left(out: &mut Vec<char>, s: &Vec<char>, w: usize)
    ensures
        final(out)@ == old(out)@ + pad_left(s@, w as nat),
{
    if s.len() < w {
        push_repeat(out, ' ', w - s.len());
    }
    push_chars(out, s, 0, s.len());
    assert(s@.subrange(0, s.len() as int) =~= s@);
    assert(final(out)@ =~= old(out)@ + pad_left(s@, w as nat));
}

/// The level of rank `r`.
fn level_of_rank(r: usize) -> (l: LogLevel)
    requires
        r < 6,
    ensures
        l == LogLevel::from_rank(r as nat),
{
    if r == 0 {
        LogLevel::Trace
    } else if r == 1 {
        LogLevel::Debug
    } else if r == 2 {
        LogLevel::Info
    } else if r == 3 {
        LogLevel::Warn
    } else if r == 4 {
        LogLevel::Error
    } else {
        LogLevel::Fatal
    }
}

/// Appends the characters of `YYYY-MM-DD HH:MM:SS`.
fn push_datetime(out: &mut Vec<char>, d: &DateTime)
    ensures
        final(out)@ == old(out)@ + display_spec(*d),
{
    d.push_display(out);
}

fn push_period_text(out: &mut Vec<char>, st: &Statistics)
    ensures
        final(out)@ == old(out)@ + period_text(*st),
{
    match (&st.first_entry, &st.last_entry) {
        (Some(f), Some(l)) => {
            push_str(out, "Period: ");
            push_datetime(out, f);
            push_str(out, " to ");
            push_datetime(out, l);
            out.push('\n');
        },
        _ => {
            push_str(out, "Period: (no entries)\n");
        },
    }
    assert(final(out)@ =~= old(out)@ + period_text(*st));
}

fn push_peak_text(out: &mut Vec<char>, st: &Statistics)
    ensures
        final(out)@ == old(out)@ + peak_text(*st),
{
    match st.peak_hour {
        Some(h) => {
            push_str(out, "Peak Hour:        ");
            push_zero_padded(out, h as u64, 2);
            push_str(out, ":00 (");
            push_number(out, st.hour_count(h));
            push_str(out, " entries)\n");
        },
        None => {
            push_str(out, "Peak Hour:        (none)\n");
        },
    }
    assert(final(out)@ =~= old(out)@ + peak_text(*st));
}

fn push_active_text(out: &mut Vec<char>, st: &Statistics)
    ensures
        final(out)@ == old(out)@ + active_text(*st),
{
    match &st.most_active_component {
        Some(c) => {
            push_str(out, "Most Active:      ");
            push_str(out, c.as_str());
            push_str(out, " (");
            push_number(out, st.component_count(c.as_str()));
            push_str(out, " entries)\n");
        },
        None => {
            push_str(out, "Most Active:      (none)\n");
        },
    }
    assert(final(out)@ =~= old(out)@ + active_text(*st));
}

fn push_summary_text(out: &mut Vec<char>, st: &Statistics, pct: &Percentages)
    ensures
        final(out)@ == old(out)@ + summary_text(*st, *pct),
{
    push_str(out, "\nSUMMARY\n-------\nTotal Entries:    ");
    push_number(out, st.total_entries);
    out.push('\n');
    push_str(out, "Error Rate:       ");
    push_str(out, pct.error_rate_percent.as_str());
    push_str(out, "%\n");
    push_peak_text(out, st);
    push_active_text(out, st);
    assert(final(out)@ =~= old(out)@ + summary_text(*st, *pct));
}

fn push_level_rows(out: &mut Vec<char>, st: &Statistics, pct: &Percentages)
    requires
        pct.level_percents.len() == 6,
    ensures
        final(out)@ == old(out)@ + level_rows(*st, *pct, 6),
{
    let mut r: usize = 0;
    assert(old(out)@ + level_rows(*st, *pct, 0) =~= old(out)@);
    while r < 6
        invariant
            r <= 6,
            pct.level_percents.len() == 6,
            out@ == old(out)@ + level_rows(*st, *pct, r as nat),
        decreases 6 - r,
    {
        let l = level_of_rank(r);
        let ghost before = out@;
        push_pad_right(out, &chars_of_level(&l), 10);
        out.push(' ');
        let mut n: Vec<char> = Vec::new();
        push_number(&mut n, st.level_count(l));
        push_pad_left(out, &n, 6);
        push_str(out, "   (");
        push_str(out, pct.level_percents[r].as_str());
        push_str(out, "%)\n");
        assert(out@ =~= before + level_row(*st, *pct, r as nat));
        r += 1;
    }
}

/// The characters of the name of `l`.
fn chars_of_level(l: &LogLevel) -> (v: Vec<char>)
    ensures
        v@ == l.name(),
{
    crate::text::chars_of(l.as_str())
}

fn push_component_rows(
    out: &mut Vec<char>,
    st: &Statistics,
    pct: &Percentages,
    order: &Vec<(usize, usize)>,
)
    requires
        pct.component_percents.len() == st.entries_by_component.len(),
        forall|k: int| 0 <= k < order.len() ==> (#[trigger] order@[k]).0 < st.entries_by_component.len(),
    ensures
        final(out)@ == old(out)@ + component_rows(*st, *pct, pairs_view(order@)),
{
    let ghost ov = pairs_view(order@);
    let mut k: usize = 0;
    assert(ov.take(0) =~= Seq::<(int, nat)>::empty());
    assert(old(out)@ + component_rows(*st, *pct, ov.take(0)) =~= old(out)@);
    while k < order.len()
        invariant
            k <= order.len(),
            ov == pairs_view(order@),
            pct.component_percents.len() == st.entries_by_component.len(),
            forall|m: int| 0 <= m < order.len() ==> (#[trigger] order@[m]).0 < st.entries_by_component.len(),
            out@ == old(out)@ + component_rows(*st, *pct, ov.take(k as int)),
        decreases order.len() - k,
    {
        let (j, c) = order[k];
        let ghost before = out@;
        let name = crate::text::chars_of(st.entries_by_component[j].0.as_str());
        push_pad_right(out, &name, 16);
        out.push(' ');
        let mut n: Vec<char> = Vec::new();
        push_number(&mut n, c);
        push_pad_left(out, &n, 6);
        push_str(out, "   (");
        push_str(out, pct.component_percents[j].as_str());
        push_str(out, "%)\n");
        proof {
            assert(ov.take(k + 1).drop_last() =~= ov.take(k as int));
            assert(ov.take(k + 1).last() == (j as int, c as nat));
        }
        assert(out@ =~= before + component_row(*st, *pct, (j as int, c as nat)));
        k += 1;
    }
    assert(ov.take(order.len() as int) =~= ov);
}

/// Formats the text report of `stats`; the shares come rendered in `pct`.
pub fn format_text_report(stats: &Statistics, parse_errors: &[ParseError], pct: &Percentages) -> (r:
    String)
    requires
        pct.level_percents.len() == 6,
        pct.component_percents.len() == stats.entries_by_component.len(),
    ensures
        r@ == text_report_spec(*stats, parse_errors@.len(), *pct),
{
    let mut out: Vec<char> = Vec::new();
    push_str(&mut out, "================== LOG ANALYSIS REPORT ==================\n");
    push_period_text(&mut out, stats);
    push_summary_text(&mut out, stats, pct);
    push_str(&mut out, "\nBY LOG LEVEL\n------------\n");
    push_level_rows(&mut out, stats, pct);
    push_str(&mut out, "\nBY COMPONENT\n------------\n");
    let order = order_by_count(&stats.entries_by_component);
    push_component_rows(&mut out, stats, pct, &order);
    push_str(&mut out, "\nParse Errors: ");
    push_decimal(&mut out, parse_errors.len() as u64);
    push_str(&mut out, " lines skipped\n");
    push_str(&mut out, "=========================================================\n");
    assert(out@ =~= text_report_spec(*stats, parse_errors@.len(), *pct));
    string_from_chars(&out)
}

// ---------------------------------------------------------------------------
// JSON report
// ---------------------------------------------------------------------------

/// The rows joined with `sep` between neighbours.
pub open spec fn join(rows: Seq<Seq<char>>, sep: Seq<char>) -> Seq<char>
    decreases rows.len(),
{
    if rows.len() == 0 {
        Seq::empty()
    } else if rows.len() == 1 {
        rows[0]
    } else {
        join(rows.drop_last(), sep) + sep + rows.last()
    }
}

/// The hexadecimal digit for `d < 16`, in lower case.
pub open spec fn hex_digit(d: nat) -> char {
    if d < 10 {
        digit_char(d)
    } else if d == 10 {
        'a'
    } else if d == 11 {
        'b'
    } else if d == 12 {
        'c'
    } else if d == 13 {
        'd'
    } else if d == 14 {
        'e'
    } else {
        'f'
    }
}

/// How `c` is written inside a JSON string: `"` and `\` behind a backslash,
/// the control characters below U+0020 as `\b`, `\f`, `\n`, `\r`, `\t` or
/// `\u00XX`, and every other character as itself.
pub open spec fn json_escape_char(c: char) -> Seq<char> {
    if c == '"' {
        seq!['\\', '"']
    } else if c == '\\' {
        seq!['\\', '\\']
    } else if c == '\u{8}' {
        seq!['\\', 'b']
    } else if c == '\u{c}' {
        seq!['\\', 'f']
    } else if c == '\n' {
        seq!['\\', 'n']
    } else if c == '\r' {
        seq!['\\', 'r']
    } else if c == '\t' {
        seq!['\\', 't']
    } else if (c as u32) < 0x20 {
        seq!['\\', 'u', '0', '0', hex_digit((c as u32 / 16) as nat), hex_digit((c as u32 % 16) as nat)]
    } else {
        seq![c]
    }
}

/// The text `s` written inside a JSON string, each character escaped as JSON
/// requires.
pub open spec fn json_escape(s: Seq<char>) -> Seq<char>
    decreases s.len(),
{
    if s.len() == 0 {
        Seq::empty()
    } else {
        json_escape(s.drop_last()) + json_escape_char(s.last())
    }
}

/// Law: a text without `"`, `\` or control characters is written in a JSON
/// string as it is.
pub proof fn lemma_json_escape_plain(s: Seq<char>)
    requires
        forall|i: int|
            0 <= i < s.len() ==> #[trigger] s[i] != '"' && s[i] != '\\' && (s[i] as u32) >= 0x20,
    ensures
        json_escape(s) == s,
    decreases s.len(),
{
    if s.len() > 0 {
        lemma_json_escape_plain(s.drop_last());
        assert(s.last() == s[s.len() - 1]);
        assert(s.drop_last().push(s.last()) =~= s);
    }
}

/// The value of a hexadecimal digit, in either case.
pub open spec fn hex_value(c: char) -> nat {
    if '0' <= c <= '9' {
        ((c as u32) - 48) as nat
    } else if 'a' <= c <= 'f' {
        ((c as u32) - 87) as nat
    } else if 'A' <= c <= 'F' {
        ((c as u32) - 55) as nat
    } else {
        0
    }
}

/// The character that the JSON escape `\c` stands for, `c` not being `u`.
pub open spec fn unescape_char(c: char) -> char {
    if c == 'b' {
        '\u{8}'
    } else if c == 'f' {
        '\u{c}'
    } else if c == 'n' {
        '\n'
    } else if c == 'r' {
        '\r'
    } else if c == 't' {
        '\t'
    } else {
        c
    }
}

/// The text that the body `s` of a JSON string stands for, its escapes
/// decoded as JSON defines them.
pub open spec fn json_unescape(s: Seq<char>) -> Seq<char>
    decreases s.len(),
{
    if s.len() == 0 {
        Seq::empty()
    } else if s[0] == '\\' && s.len() >= 6 && s[1] == 'u' {
        seq![
            ((hex_value(s[2]) * 4096 + hex_value(s[3]) * 256 + hex_value(s[4]) * 16 + hex_value(
                s[5],
            )) as u32) as char,
        ] + json_unescape(s.skip(6))
    } else if s[0] == '\\' && s.len() >= 2 {
        seq![unescape_char(s[1])] + json_unescape(s.skip(2))
    } else {
        seq![s[0]] + json_unescape(s.skip(1))
    }
}

/// Escaping a text escapes its first character, then the rest.
proof fn lemma_json_escape_front(s: Seq<char>)
    requires
        s.len() > 0,
    ensures
        json_escape(s) == json_escape_char(s[0]) + json_escape(s.drop_first()),
    decreases s.len(),
{
    if s.len() == 1 {
        assert(s.drop_last() =~= Seq::<char>::empty());
        assert(s.drop_first() =~= Seq::<char>::empty());
        assert(json_escape(s) =~= json_escape_char(s[0]) + json_escape(s.drop_first()));
    } else {
        let p = s.drop_last();
        lemma_json_escape_front(p);
        assert(p.drop_first() =~= s.drop_first().drop_last());
        assert(s.drop_first().last() == s.last());
        assert(p[0] == s[0]);
        assert(json_escape(s) =~= json_escape_char(s[0]) + json_escape(s.drop_first()));
    }
}

/// A hexadecimal digit reads back as its value.
proof fn lemma_hex_value(d: nat)
    requires
        d < 16,
    ensures
        hex_value(hex_digit(d)) == d,
{
    if d < 10 {
        lemma_digit_char(d);
    }
}

/// Decoding an escaped character followed by more text gives the character
/// followed by the decoding of the rest.
proof fn lemma_unescape_escaped_char(c: char, rest: Seq<char>)
    ensures
        json_unescape(json_escape_char(c) + rest) == seq![c] + json_unescape(rest),
{
    let e = json_escape_char(c);
    let s = e + rest;
    if c == '"' || c == '\\' || c == '\u{8}' || c == '\u{c}' || c == '\n' || c == '\r' || c
        == '\t' {
        assert(s.skip(2) =~= rest);
        assert(s[0] == '\\' && s[1] != 'u');
    } else if (c as u32) < 0x20 {
        let u = c as u32;
        lemma_hex_value((u / 16) as nat);
        lemma_hex_value((u % 16) as nat);
        assert(s.skip(6) =~= rest);
        assert(s[0] == '\\' && s[1] == 'u' && s[2] == '0' && s[3] == '0');
        assert(hex_value('0') == 0);
        assert((u / 16) * 16 + u % 16 == u);
        vstd::utf8::char_u32_cast(c, u);
    } else {
        assert(s.skip(1) =~= rest);
        assert(s[0] == c);
    }
}

/// Law: decoding the escaped form of a text gives the text back, so every
/// name written in a JSON report reads back as itself.
pub proof fn lemma_json_escape_roundtrip(s: Seq<char>)
    ensures
        json_unescape(json_escape(s)) == s,
    decreases s.len(),
{
    if s.len() == 0 {
        assert(json_escape(s) =~= Seq::<char>::empty());
    } else {
        lemma_json_escape_front(s);
        lemma_unescape_escaped_char(s[0], json_escape(s.drop_first()));
        lemma_json_escape_roundtrip(s.drop_first());
        assert(seq![s[0]] + s.drop_first() =~= s);
    }
}

/// The hexadecimal digit for `d < 16`.
fn hex(d: u32) -> (c: char)
    requires
        d < 16,
    ensures
        c == hex_digit(d as nat),
{
    if d < 10 {
        digit(d as u64)
    } else if d == 10 {
        'a'
    } else if d == 11 {
        'b'
    } else if d == 12 {
        'c'
    } else if d == 13 {
        'd'
    } else if d == 14 {
        'e'
    } else {
        'f'
    }
}

/// Appends `c` as written inside a JSON string.
fn push_json_escaped_char(out: &mut Vec<char>, c: char)
    ensures
        final(out)@ == old(out)@ + json_escape_char(c),
{
    if c == '"' {
        out.push('\\');
        out.push('"');
    } else if c == '\\' {
        out.push('\\');
        out.push('\\');
    } else if c == '\u{8}' {
        out.push('\\');
        out.push('b');
    } else if c == '\u{c}' {
        out.push('\\');
        out.push('f');
    } else if c == '\n' {
        out.push('\\');
        out.push('n');
    } else if c == '\r' {
        out.push('\\');
        out.push('r');
    } else if c == '\t' {
        out.push('\\');
        out.push('t');
    } else if (c as u32) < 0x20 {
        let u = c as u32;
        out.push('\\');
        out.push('u');
        out.push('0');
        out.push('0');
        out.push(hex(u / 16));
        out.push(hex(u % 16));
    } else {
        out.push(c);
    }
    assert(final(out)@ =~= old(out)@ + json_escape_char(c));
}

/// Appends `s` as written inside a JSON string.
fn push_json_escaped(out: &mut Vec<char>, s: &str)
    ensures
        final(out)@ == old(out)@ + json_escape(s@),
{
    let v = chars_of(s);
    let mut i: usize = 0;
    assert(v@.take(0) =~= Seq::<char>::empty());
    while i < v.len()
        invariant
            i <= v.len(),
            v@ == s@,
            out@ == old(out)@ + json_escape(v@.take(i as int)),
        decreases v.len() - i,
    {
        proof {
            assert(v@.take(i + 1).drop_last() =~= v@.take(i as int));
            assert(v@.take(i + 1).last() == v@[i as int]);
        }
        push_json_escaped_char(out, v[i]);
        assert(out@ =~= old(out)@ + json_escape(v@.take(i + 1)));
        i += 1;
    }
    assert(v@.take(v.len() as int) =~= v@);
}

/// A JSON member `"name": value` indented by four spaces, the name escaped.
pub open spec fn json_count_row(name: Seq<char>, n: nat) -> Seq<char> {
    "    \""@ + json_escape(name) + "\": "@ + decimal(n)
}

/// The level members of the JSON report, from `Trace` to `Fatal`.
pub open spec fn json_level_rows(st: Statistics) -> Seq<Seq<char>> {
    Seq::new(
        6,
        |r: int|
            json_count_row(
                LogLevel::from_rank(r as nat).name(),
                count_in(level_counts_view(st.entries_by_level@), LogLevel::from_rank(r as nat)),
            ),
    )
}

/// The component members of the JSON report, in `order`.
pub open spec fn json_component_rows(st: Statistics, order: Seq<(int, nat)>) -> Seq<Seq<char>> {
    Seq::new(
        order.len(),
        |k: int| json_count_row(st.entries_by_component@[order[k].0].0@, order[k].1),
    )
}

/// The peak-hour member of the JSON report.
pub open spec fn json_peak(st: Statistics) -> Seq<char> {
    match st.peak_hour {
        Some(h) => "  \"peak_hour\": "@ + decimal(h as nat) + ",\n"@,
        None => "  \"peak_hour\": null,\n"@,
    }
}

/// The most-active member of the JSON report.
pub open spec fn json_active(st: Statistics) -> Seq<char> {
    match st.most_active_component {
        Some(c) => "  \"most_active_component\": \""@ + json_escape(c@) + "\",\n"@,
        None => "  \"most_active_component\": null,\n"@,
    }
}

/// The members of the period object of the JSON report.
pub open spec fn json_period(st: Statistics) -> Seq<char> {
    match (st.first_entry, st.last_entry) {
        (Some(f), Some(l)) => "    \"start\": \""@ + display_spec(f) + "\",\n"@
            + "    \"end\": \""@ + display_spec(l) + "\"\n"@,
        _ => "    \"start\": null,\n"@ + "    \"end\": null\n"@,
    }
}

/// The JSON report: totals, error rate (rendered by the caller), peak hour,
/// most active component, counts per level and per component (busiest first),
/// period and the number of lines that did not parse.
pub open spec fn json_report_spec(st: Statistics, parse_errors: nat, error_rate: Seq<char>) -> Seq<
    char,
> {
    "{\n"@ + "  \"total_entries\": "@ + decimal(st.total_entries as nat) + ",\n"@
        + "  \"error_rate\": "@ + error_rate + ",\n"@ + json_peak(st) + json_active(st)
        + "  \"entries_by_level\": {\n"@ + join(json_level_rows(st), ",\n"@) + "\n  },\n"@
        + "  \"entries_by_component\": {\n"@ + join(
        json_component_rows(st, sort_by_count(indexed_counts(st.entries_by_component@))),
        ",\n"@,
    ) + "\n  },\n"@ + "  \"period\": {\n"@ + json_period(st) + "  },\n"@
        + "  \"parse_errors\": "@ + decimal(parse_errors) + seq!['\n'] + "}\n"@
}

/// Appends `    "name": n`.
fn push_json_count_row(out: &mut Vec<char>, name: &str, n: usize)
    ensures
        final(out)@ == old(out)@ + json_count_row(name@, n as nat),
{
    push_str(out, "    \"");
    push_json_escaped(out, name);
    push_str(out, "\": ");
    push_decimal(out, n as u64);
    assert(final(out)@ =~= old(out)@ + json_count_row(name@, n as nat));
}

/// Joining one more row.
proof fn lemma_join_step(rows: Seq<Seq<char>>, sep: Seq<char>, k: int)
    requires
        0 <= k < rows.len(),
    ensures
        join(rows.take(k + 1), sep) == if k == 0 {
            rows[0]
        } else {
            join(rows.take(k), sep) + sep + rows[k]
        },
{
    assert(rows.take(k + 1).drop_last() =~= rows.take(k));
}

fn push_json_level_rows(out: &mut Vec<char>, st: &Statistics)
    ensures
        final(out)@ == old(out)@ + join(json_level_rows(*st), ",\n"@),
{
    let ghost rows = json_level_rows(*st);
    let mut r: usize = 0;
    assert(rows.take(0) =~= Seq::<Seq<char>>::empty());
    assert(old(out)@ + join(rows.take(0), ",\n"@) =~= old(out)@);
    while r < 6
        invariant
            r <= 6,
            rows == json_level_rows(*st),
            out@ == old(out)@ + join(rows.take(r as int), ",\n"@),
        decreases 6 - r,
    {
        let ghost before = out@;
        proof {
            lemma_join_step(rows, ",\n"@, r as int);
        }
        if r > 0 {
            push_str(out, ",\n");
        }
        let l = level_of_rank(r);
        push_json_count_row(out, l.as_str(), st.level_count(l));
        assert(rows[r as int] == json_count_row(l.name(), count_in(level_counts_view(st.entries_by_level@), l)));
        assert(out@ =~= old(out)@ + join(rows.take(r + 1), ",\n"@));
        r += 1;
    }
    assert(rows.take(6) =~= rows);
}

fn push_json_component_rows(out: &mut Vec<char>, st: &Statistics, order: &Vec<(usize, usize)>)
    requires
        forall|k: int| 0 <= k < order.len() ==> (#[trigger] order@[k]).0 < st.entries_by_component.len(),
    ensures
        final(out)@ == old(out)@ + join(json_component_rows(*st, pairs_view(order@)), ",\n"@),
{
    let ghost rows = json_component_rows(*st, pairs_view(order@));
    let mut k: usize = 0;
    assert(rows.take(0) =~= Seq::<Seq<char>>::empty());
    assert(old(out)@ + join(rows.take(0), ",\n"@) =~= old(out)@);
    while k < order.len()
        invariant
            k <= order.len(),
            rows == json_component_rows(*st, pairs_view(order@)),
            forall|m: int| 0 <= m < order.len() ==> (#[trigger] order@[m]).0 < st.entries_by_component.len(),
            out@ == old(out)@ + join(rows.take(k as int), ",\n"@),
        decreases order.len() - k,
    {
        proof {
            lemma_join_step(rows, ",\n"@, k as int);
        }
        if k > 0 {
            push_str(out, ",\n");
        }
        let (j, c) = order[k];
        push_json_count_row(out, st.entries_by_component[j].0.as_str(), c);
        assert(rows[k as int] == json_count_row(st.entries_by_component@[j as int].0@, c as nat));
        assert(out@ =~= old(out)@ + join(rows.take(k + 1), ",\n"@));
        k += 1;
    }
    assert(rows.take(order.len() as int) =~= rows);
}

fn push_json_head(out: &mut Vec<char>, st: &Statistics, error_rate: &str)
    ensures
        final(out)@ == old(out)@ + ("{\n"@ + "  \"total_entries\": "@ + decimal(
            st.total_entries as nat,
        ) + ",\n"@ + "  \"error_rate\": "@ + error_rate@ + ",\n"@ + json_peak(*st) + json_active(
            *st,
        )),
{
    push_str(out, "{\n");
    push_str(out, "  \"total_entries\": ");
    push_decimal(out, st.total_entries as u64);
    push_str(out, ",\n");
    push_str(out, "  \"error_rate\": ");
    push_str(out, error_rate);
    push_str(out, ",\n");
    push_json_peak(out, st);
    push_json_active(out, st);
    assert(final(out)@ =~= old(out)@ + ("{\n"@ + "  \"total_entries\": "@ + decimal(
        st.total_entries as nat,
    ) + ",\n"@ + "  \"error_rate\": "@ + error_rate@ + ",\n"@ + json_peak(*st) + json_active(
        *st,
    )));
}

fn push_json_peak(out: &mut Vec<char>, st: &Statistics)
    ensures
        final(out)@ == old(out)@ + json_peak(*st),
{
    match st.peak_hour {
        Some(h) => {
            push_str(out, "  \"peak_hour\": ");
            push_decimal(out, h as u64);
            push_str(out, ",\n");
        },
        None => {
            push_str(out, "  \"peak_hour\": null,\n");
        },
    }
    assert(final(out)@ =~= old(out)@ + json_peak(*st));
}

fn push_json_active(out: &mut Vec<char>, st: &Statistics)
    ensures
        final(out)@ == old(out)@ + json_active(*st),
{
    match &st.most_active_component {
        Some(c) => {
            push_str(out, "  \"most_active_component\": \"");
            push_json_escaped(out, c.as_str());
            push_str(out, "\",\n");
        },
        None => {
            push_str(out, "  \"most_active_component\": null,\n");
        },
    }
    assert(final(out)@ =~= old(out)@ + json_active(*st));
}

fn push_json_period(out: &mut Vec<char>, st: &Statistics)
    ensures
        final(out)@ == old(out)@ + json_period(*st),
{
    match (&st.first_entry, &st.last_entry) {
        (Some(f), Some(l)) => {
            push_str(out, "    \"start\": \"");
            push_datetime(out, f);
            push_str(out, "\",\n");
            push_str(out, "    \"end\": \"");
            push_datetime(out, l);
            push_str(out, "\"\n");
        },
        _ => {
            push_str(out, "    \"start\": null,\n");
            push_str(out, "    \"end\": null\n");
        },
    }
    assert(final(out)@ =~= old(out)@ + json_period(*st));
}

/// Formats the JSON report of `stats`; the error rate comes rendered in
/// `error_rate`.
pub fn format_json_report(stats: &Statistics, parse_errors: &[ParseError], error_rate: &str) -> (r:
    String)
    ensures
        r@ == json_report_spec(*stats, parse_errors@.len(), error_rate@),
{
    let mut out: Vec<char> = Vec::new();
    push_json_head(&mut out, stats, error_rate);
    push_str(&mut out, "  \"entries_by_level\": {\n");
    push_json_level_rows(&mut out, stats);
    push_str(&mut out, "\n  },\n");
    push_str(&mut out, "  \"entries_by_component\": {\n");
    let order = order_by_count(&stats.entries_by_component);
    push_json_component_rows(&mut out, stats, &order);
    push_str(&mut out, "\n  },\n");
    push_str(&mut out, "  \"period\": {\n");
    push_json_period(&mut out, stats);
    push_str(&mut out, "  },\n");
    push_str(&mut out, "  \"parse_errors\": ");
    push_decimal(&mut out, parse_errors.len() as u64);
    out.push('\n');
    push_str(&mut out, "}\n");
    assert(out@ =~= json_report_spec(*stats, parse_errors@.len(), error_rate@));
    string_from_chars(&out)
}

// ---------------------------------------------------------------------------
// Laws of the reports
// ---------------------------------------------------------------------------

/// `w` occurs in `s` starting at index `i`.
pub open spec fn occurs_at(s: Seq<char>, w: Seq<char>, i: int) -> bool {
    &&& 0 <= i
    &&& i + w.len() <= s.len()
    &&& s.subrange(i, i + w.len()) == w
}

/// `w` occurs somewhere in `s` (`str::contains`).
pub open spec fn contains_text(s: Seq<char>, w: Seq<char>) -> bool {
    exists|i: int| occurs_at(s, w, i)
}

/// Law: grouping a non-empty run of digits keeps the digits and puts a comma
/// exactly before each group of three counted from the right, so the first
/// group holds one to three digits and every later group three.
pub proof fn lemma_grouped_layout(d: Seq<char>)
    requires
        d.len() > 0,
        forall|i: int| 0 <= i < d.len() ==> #[trigger] d[i] != ',',
    ensures
        grouped(d).len() == d.len() + (d.len() - 1) / 3,
        forall|i: int|
            0 <= i < grouped(d).len() ==> (#[trigger] grouped(d)[i] == ',' <==> (i > 0 && (
            grouped(d).len() - i) % 4 == 0)),
        grouped(d).filter(|c: char| c != ',') == d,
    decreases d.len(),
{
    lemma_grouped_digits(d);
    let g = grouped(d);
    if d.len() > 3 {
        let a = d.take(d.len() - 3);
        let b = d.skip(d.len() - 3);
        assert forall|i: int| 0 <= i < a.len() implies #[trigger] a[i] != ',' by {
            assert(a[i] == d[i]);
        }
        lemma_grouped_layout(a);
        let ga = grouped(a);
        assert(g == ga + seq![','] + b);
        assert forall|i: int| 0 <= i < g.len() implies (#[trigger] g[i] == ',' <==> (i > 0 && (
        g.len() - i) % 4 == 0)) by {
            if i < ga.len() {
                assert(g[i] == ga[i]);
                assert((g.len() - i) % 4 == (ga.len() - i) % 4);
            } else if i == ga.len() {
                assert(g[i] == ',');
            } else {
                assert(g[i] == b[i - ga.len() - 1]);
                assert(b[i - ga.len() - 1] == d[d.len() - 3 + i - ga.len() - 1]);
            }
        }
    }
}

/// Law: the decimal digits of a number contain no comma, so `format_number`
/// gives them back once the commas are taken out, with the groups laid out
/// as `lemma_grouped_layout` says.
pub proof fn lemma_number_layout(n: nat)
    ensures
        number_spec(n).filter(|c: char| c != ',') == decimal(n),
        forall|i: int|
            0 <= i < number_spec(n).len() ==> (#[trigger] number_spec(n)[i] == ',' <==> (i > 0 && (
            number_spec(n).len() - i) % 4 == 0)),
{
    lemma_decimal_digits(n);
    let d = decimal(n);
    assert forall|i: int| 0 <= i < d.len() implies #[trigger] d[i] != ',' by {
        lemma_digit_is_not_comma(d[i]);
    }
    lemma_grouped_layout(d);
}

/// An ASCII digit is not a comma.
proof fn lemma_digit_is_not_comma(c: char)
    requires
        '0' <= c <= '9',
    ensures
        c != ',',
{
}

/// Law: every text report opens with the `LOG ANALYSIS REPORT` banner and
/// names `Total Entries` in its summary.
#[verifier::spinoff_prover]
#[verifier::rlimit(60)]
pub proof fn lemma_text_report_headings(st: Statistics, parse_errors: nat, pct: Percentages)
    ensures
        contains_text(text_report_spec(st, parse_errors, pct), "LOG ANALYSIS REPORT"@),
        contains_text(text_report_spec(st, parse_errors, pct), "Total Entries"@),
{
    reveal_strlit("================== LOG ANALYSIS REPORT ==================\n");
    reveal_strlit("LOG ANALYSIS REPORT");
    reveal_strlit("Total Entries");
    reveal_strlit("\nSUMMARY\n-------\nTotal Entries:    ");
    let h = "================== LOG ANALYSIS REPORT ==================\n"@;
    let p = period_text(st);
    let s = summary_text(st, pct);
    let r = text_report_spec(st, parse_errors, pct);
    let rest = r.skip((h.len() + p.len() + s.len()) as int);
    assert(r =~= h + p + s + rest);
    assert(r.subrange(19, 38) =~= "LOG ANALYSIS REPORT"@);
    assert(occurs_at(r, "LOG ANALYSIS REPORT"@, 19));
    let k: int = (h.len() + p.len() + 17) as int;
    assert(r.subrange(k, k + 13) =~= "Total Entries"@);
    assert(occurs_at(r, "Total Entries"@, k));
}

/// Law: every JSON report is one object: it opens with `{` and closes with
/// `}`, names `total_entries` and `error_rate`, lists the six levels from
/// `TRACE` to `FATAL`, and lists each component once with the counts not
/// increasing.
#[verifier::spinoff_prover]
#[verifier::rlimit(60)]
pub proof fn lemma_json_report_shape(st: Statistics, parse_errors: nat, error_rate: Seq<char>)
    ensures
        json_report_spec(st, parse_errors, error_rate)[0] == '{',
        json_report_spec(st, parse_errors, error_rate).skip(
            json_report_spec(st, parse_errors, error_rate).len() - 2,
        ) == "}\n"@,
        contains_text(json_report_spec(st, parse_errors, error_rate), "\"total_entries\""@),
        contains_text(json_report_spec(st, parse_errors, error_rate), "\"error_rate\""@),
        json_level_rows(st).len() == 6,
        forall|r: int|
            0 <= r < 6 ==> #[trigger] json_level_rows(st)[r] == json_count_row(
                LogLevel::from_rank(r as nat).name(),
                count_in(level_counts_view(st.entries_by_level@), LogLevel::from_rank(r as nat)),
            ),
        counts_descending(sort_by_count(indexed_counts(st.entries_by_component@))),
        sort_by_count(indexed_counts(st.entries_by_component@)).to_multiset() == indexed_counts(
            st.entries_by_component@,
        ).to_multiset(),
{
    reveal_strlit("{\n");
    reveal_strlit("}\n");
    reveal_strlit("  \"total_entries\": ");
    reveal_strlit("\"total_entries\"");
    reveal_strlit("  \"error_rate\": ");
    reveal_strlit("\"error_rate\"");
    reveal_strlit(",\n");
    lemma_sort_by_count(indexed_counts(st.entries_by_component@));
    let j = json_report_spec(st, parse_errors, error_rate);
    let a = "{\n"@;
    let b = "  \"total_entries\": "@;
    let c = decimal(st.total_entries as nat);
    let e = ",\n"@;
    let f = "  \"error_rate\": "@;
    let front = a + b + c + e + f;
    let back = j.skip(front.len() as int);
    assert(j =~= front + back);
    assert(j.subrange(4, 19) =~= "\"total_entries\""@);
    assert(occurs_at(j, "\"total_entries\""@, 4));
    let k: int = (a.len() + b.len() + c.len() + e.len() + 2) as int;
    assert(j.subrange(k, k + 12) =~= "\"error_rate\""@);
    assert(occurs_at(j, "\"error_rate\""@, k));
    let last = "}\n"@;
    assert(j =~= j.take(j.len() - 2) + last);
}

/// `w` closes `s`.
pub open spec fn ends_with(s: Seq<char>, w: Seq<char>) -> bool {
    w.len() <= s.len() && s.skip(s.len() - w.len()) == w
}

/// A text placed between two others occurs in the whole.
proof fn lemma_occurs_between(x: Seq<char>, w: Seq<char>, y: Seq<char>)
    ensures
        occurs_at(x + w + y, w, x.len() as int),
        contains_text(x + w + y, w),
{
    assert((x + w + y).subrange(x.len() as int, (x.len() + w.len()) as int) =~= w);
}

/// The text report: banner, period and summary, then the rest.
proof fn lemma_text_report_parts(st: Statistics, parse_errors: nat, pct: Percentages)
    ensures
        text_report_spec(st, parse_errors, pct) == "================== LOG ANALYSIS REPORT ==================\n"@
            + period_text(st) + "\nSUMMARY\n-------\n"@ + ("Total Entries:    "@ + number_spec(
            st.total_entries as nat,
        ) + seq!['\n']) + ("Error Rate:       "@ + pct.error_rate_percent@ + "%\n"@) + peak_text(st)
            + active_text(st) + text_report_tail(st, parse_errors, pct),
{
    reveal_strlit("\nSUMMARY\n-------\nTotal Entries:    ");
    reveal_strlit("\nSUMMARY\n-------\n");
    reveal_strlit("Total Entries:    ");
    assert("\nSUMMARY\n-------\nTotal Entries:    "@ =~= "\nSUMMARY\n-------\n"@
        + "Total Entries:    "@);
    assert(text_report_spec(st, parse_errors, pct) =~= "================== LOG ANALYSIS REPORT ==================\n"@
        + period_text(st) + "\nSUMMARY\n-------\n"@ + ("Total Entries:    "@ + number_spec(
        st.total_entries as nat,
    ) + seq!['\n']) + ("Error Rate:       "@ + pct.error_rate_percent@ + "%\n"@) + peak_text(st)
        + active_text(st) + text_report_tail(st, parse_errors, pct));
}

/// What follows the summary in the text report: the tables and the footer.
pub open spec fn text_report_tail(st: Statistics, parse_errors: nat, pct: Percentages) -> Seq<char> {
    "\nBY LOG LEVEL\n------------\n"@ + level_rows(st, pct, 6) + "\nBY COMPONENT\n------------\n"@
        + component_rows(st, pct, sort_by_count(indexed_counts(st.entries_by_component@)))
        + ("\nParse Errors: "@ + decimal(parse_errors) + " lines skipped\n"@
        + "=========================================================\n"@)
}

/// Law: the text report shows the figures it is given: the period from the
/// first to the last timestamp, the total number of entries, the peak hour
/// with the number of entries in that hour, the most active component with
/// its number of entries, and, on its last lines, the number of lines that
/// did not parse.
#[verifier::spinoff_prover]
#[verifier::rlimit(60)]
pub proof fn lemma_text_report_figures(st: Statistics, parse_errors: nat, pct: Percentages)
    ensures
        (st.first_entry, st.last_entry) matches (Some(f), Some(l)) ==> contains_text(
            text_report_spec(st, parse_errors, pct),
            "Period: "@ + display_spec(f) + " to "@ + display_spec(l) + seq!['\n'],
        ),
        contains_text(
            text_report_spec(st, parse_errors, pct),
            "Total Entries:    "@ + number_spec(st.total_entries as nat) + seq!['\n'],
        ),
        st.peak_hour matches Some(h) ==> contains_text(
            text_report_spec(st, parse_errors, pct),
            "Peak Hour:        "@ + zero_padded(h as nat, 2) + ":00 ("@ + number_spec(
                count_in(hour_counts_view(st.entries_by_hour@), h),
            ) + " entries)\n"@,
        ),
        st.most_active_component matches Some(c) ==> contains_text(
            text_report_spec(st, parse_errors, pct),
            "Most Active:      "@ + c@ + " ("@ + number_spec(
                count_in(component_counts_view(st.entries_by_component@), c@),
            ) + " entries)\n"@,
        ),
        ends_with(
            text_report_spec(st, parse_errors, pct),
            "\nParse Errors: "@ + decimal(parse_errors) + " lines skipped\n"@
                + "=========================================================\n"@,
        ),
{
    lemma_text_report_parts(st, parse_errors, pct);
    let r = text_report_spec(st, parse_errors, pct);
    let h = "================== LOG ANALYSIS REPORT ==================\n"@;
    let p = period_text(st);
    let s0 = "\nSUMMARY\n-------\n"@;
    let tot = "Total Entries:    "@ + number_spec(st.total_entries as nat) + seq!['\n'];
    let er = "Error Rate:       "@ + pct.error_rate_percent@ + "%\n"@;
    let pk = peak_text(st);
    let ac = active_text(st);
    let tail = text_report_tail(st, parse_errors, pct);
    lemma_occurs_between(h, p, s0 + tot + er + pk + ac + tail);
    assert(r =~= h + p + (s0 + tot + er + pk + ac + tail));
    lemma_occurs_between(h + p + s0, tot, er + pk + ac + tail);
    assert(r =~= (h + p + s0) + tot + (er + pk + ac + tail));
    lemma_occurs_between(h + p + s0 + tot + er, pk, ac + tail);
    assert(r =~= (h + p + s0 + tot + er) + pk + (ac + tail));
    lemma_occurs_between(h + p + s0 + tot + er + pk, ac, tail);
    assert(r =~= (h + p + s0 + tot + er + pk) + ac + tail);
    let foot = "\nParse Errors: "@ + decimal(parse_errors) + " lines skipped\n"@
        + "=========================================================\n"@;
    let front = h + p + s0 + tot + er + pk + ac + ("\nBY LOG LEVEL\n------------\n"@ + level_rows(
        st,
        pct,
        6,
    ) + "\nBY COMPONENT\n------------\n"@ + component_rows(
        st,
        pct,
        sort_by_count(indexed_counts(st.entries_by_component@)),
    ));
    assert(r =~= front + foot);
    assert(r.skip(r.len() - foot.len()) =~= foot);
}

/// The JSON report: opening members, peak hour, most active component, the
/// count objects, the period and the closing member.
proof fn lemma_json_report_parts(st: Statistics, parse_errors: nat, error_rate: Seq<char>)
    ensures
        json_report_spec(st, parse_errors, error_rate) == json_head(st, error_rate) + json_peak(st)
            + json_active(st) + json_counts(st) + json_period(st) + "  },\n"@ + (
        "  \"parse_errors\": "@ + decimal(parse_errors) + seq!['\n'] + "}\n"@),
{
    assert(json_report_spec(st, parse_errors, error_rate) =~= json_head(st, error_rate) + json_peak(
        st,
    ) + json_active(st) + json_counts(st) + json_period(st) + "  },\n"@ + ("  \"parse_errors\": "@
        + decimal(parse_errors) + seq!['\n'] + "}\n"@));
}

/// The members that open the JSON report: total and error rate.
pub open spec fn json_head(st: Statistics, error_rate: Seq<char>) -> Seq<char> {
    "{\n"@ + "  \"total_entries\": "@ + decimal(st.total_entries as nat) + ",\n"@
        + "  \"error_rate\": "@ + error_rate + ",\n"@
}

/// The count objects of the JSON report, up to the opening of the period.
pub open spec fn json_counts(st: Statistics) -> Seq<char> {
    "  \"entries_by_level\": {\n"@ + join(json_level_rows(st), ",\n"@) + "\n  },\n"@
        + "  \"entries_by_component\": {\n"@ + join(
        json_component_rows(st, sort_by_count(indexed_counts(st.entries_by_component@))),
        ",\n"@,
    ) + "\n  },\n"@ + "  \"period\": {\n"@
}

/// Law: the JSON report shows the figures it is given: it opens with the
/// total number of entries and the error rate, gives the peak hour (or
/// `null`), the most active component (or `null`), the first and last
/// timestamps, and closes with the number of lines that did not parse.
#[verifier::spinoff_prover]
#[verifier::rlimit(60)]
pub proof fn lemma_json_report_figures(st: Statistics, parse_errors: nat, error_rate: Seq<char>)
    ensures
        json_report_spec(st, parse_errors, error_rate).take(
            json_head(st, error_rate).len() as int,
        ) == "{\n"@ + "  \"total_entries\": "@ + decimal(st.total_entries as nat) + ",\n"@
            + "  \"error_rate\": "@ + error_rate + ",\n"@,
        st.peak_hour matches Some(h) ==> contains_text(
            json_report_spec(st, parse_errors, error_rate),
            "  \"peak_hour\": "@ + decimal(h as nat) + ",\n"@,
        ),
        st.peak_hour is None ==> contains_text(
            json_report_spec(st, parse_errors, error_rate),
            "  \"peak_hour\": null,\n"@,
        ),
        st.most_active_component matches Some(c) ==> contains_text(
            json_report_spec(st, parse_errors, error_rate),
            "  \"most_active_component\": \""@ + json_escape(c@) + "\",\n"@,
        ),
        st.most_active_component is None ==> contains_text(
            json_report_spec(st, parse_errors, error_rate),
            "  \"most_active_component\": null,\n"@,
        ),
        (st.first_entry, st.last_entry) matches (Some(f), Some(l)) ==> contains_text(
            json_report_spec(st, parse_errors, error_rate),
            "    \"start\": \""@ + display_spec(f) + "\",\n"@ + "    \"end\": \""@ + display_spec(l)
                + "\"\n"@,
        ),
        ends_with(
            json_report_spec(st, parse_errors, error_rate),
            "  \"parse_errors\": "@ + decimal(parse_errors) + seq!['\n'] + "}\n"@,
        ),
{
    lemma_json_report_parts(st, parse_errors, error_rate);
    let r = json_report_spec(st, parse_errors, error_rate);
    let hd = json_head(st, error_rate);
    let pk = json_peak(st);
    let ac = json_active(st);
    let cn = json_counts(st);
    let pe = json_period(st);
    let cl = "  },\n"@;
    let ft = "  \"parse_errors\": "@ + decimal(parse_errors) + seq!['\n'] + "}\n"@;
    assert(r.take(hd.len() as int) =~= hd);
    lemma_occurs_between(hd, pk, ac + cn + pe + cl + ft);
    assert(r =~= hd + pk + (ac + cn + pe + cl + ft));
    lemma_occurs_between(hd + pk, ac, cn + pe + cl + ft);
    assert(r =~= (hd + pk) + ac + (cn + pe + cl + ft));
    lemma_occurs_between(hd + pk + ac + cn, pe, cl + ft);
    assert(r =~= (hd + pk + ac + cn) + pe + (cl + ft));
    assert(r =~= (hd + pk + ac + cn + pe + cl) + ft);
    assert(r.skip(r.len() - ft.len()) =~= ft);
}

/// What occurs in a part occurs in the whole.
proof fn lemma_contains_within(a: Seq<char>, x: Seq<char>, b: Seq<char>, w: Seq<char>)
    requires
        contains_text(x, w),
    ensures
        contains_text(a + x + b, w),
{
    let i = choose|i: int| occurs_at(x, w, i);
    let k = a.len() + i;
    assert((a + x + b).subrange(k, k + w.len()) =~= x.subrange(i, i + w.len()));
    assert(occurs_at(a + x + b, w, k));
}

/// The rows of the levels of rank below `n` hold the row of each of them.
proof fn lemma_level_rows_contain(st: Statistics, pct: Percentages, n: nat, r: nat)
    requires
        r < n,
    ensures
        contains_text(level_rows(st, pct, n), level_row(st, pct, r)),
    decreases n,
{
    let prev = level_rows(st, pct, (n - 1) as nat);
    let last = level_row(st, pct, (n - 1) as nat);
    assert(level_rows(st, pct, n) =~= prev + last + Seq::<char>::empty());
    if r == n - 1 {
        lemma_occurs_between(prev, last, Seq::<char>::empty());
    } else {
        lemma_level_rows_contain(st, pct, (n - 1) as nat, r);
        lemma_contains_within(Seq::<char>::empty(), prev, last, level_row(st, pct, r));
        assert(Seq::<char>::empty() + prev + last =~= level_rows(st, pct, n));
    }
}

/// The component rows of `order` hold the row of each of its entries.
proof fn lemma_component_rows_contain(st: Statistics, pct: Percentages, order: Seq<(int, nat)>, k: int)
    requires
        0 <= k < order.len(),
    ensures
        contains_text(component_rows(st, pct, order), component_row(st, pct, order[k])),
    decreases order.len(),
{
    let p = order.drop_last();
    let prev = component_rows(st, pct, p);
    let last = component_row(st, pct, order.last());
    assert(component_rows(st, pct, order) =~= prev + last + Seq::<char>::empty());
    if k == order.len() - 1 {
        lemma_occurs_between(prev, last, Seq::<char>::empty());
    } else {
        assert(p[k] == order[k]);
        lemma_component_rows_contain(st, pct, p, k);
        lemma_contains_within(Seq::<char>::empty(), prev, last, component_row(st, pct, order[k]));
        assert(Seq::<char>::empty() + prev + last =~= component_rows(st, pct, order));
    }
}

/// Joined rows hold each row.
proof fn lemma_join_contains(rows: Seq<Seq<char>>, sep: Seq<char>, k: int)
    requires
        0 <= k < rows.len(),
    ensures
        contains_text(join(rows, sep), rows[k]),
    decreases rows.len(),
{
    if rows.len() == 1 {
        lemma_occurs_between(Seq::<char>::empty(), rows[0], Seq::<char>::empty());
        assert(Seq::<char>::empty() + rows[0] + Seq::<char>::empty() =~= join(rows, sep));
    } else {
        let p = rows.drop_last();
        let prev = join(p, sep);
        if k == rows.len() - 1 {
            lemma_occurs_between(prev + sep, rows.last(), Seq::<char>::empty());
            assert(prev + sep + rows.last() + Seq::<char>::empty() =~= join(rows, sep));
        } else {
            assert(p[k] == rows[k]);
            lemma_join_contains(p, sep, k);
            lemma_contains_within(Seq::<char>::empty(), prev, sep + rows.last(), rows[k]);
            assert(Seq::<char>::empty() + prev + (sep + rows.last()) =~= join(rows, sep));
        }
    }
}

/// Every position of a count list appears, with its count, in the order by
/// count.
proof fn lemma_order_holds_position(v: Seq<(String, usize)>, j: int) -> (k: int)
    requires
        0 <= j < v.len(),
    ensures
        0 <= k < sort_by_count(indexed_counts(v)).len(),
        sort_by_count(indexed_counts(v))[k] == (j, v[j].1 as nat),
{
    let t = indexed_counts(v);
    let o = sort_by_count(t);
    lemma_sort_by_count(t);
    assert(t[j] == (j, v[j].1 as nat));
    vstd::seq_lib::to_multiset_contains(t, (j, v[j].1 as nat));
    vstd::seq_lib::to_multiset_contains(o, (j, v[j].1 as nat));
    choose|k: int| 0 <= k < o.len() && o[k] == (j, v[j].1 as nat)
}

/// Law: the text report has a row for every level, with its name, the number
/// of entries at that level and its share.
#[verifier::spinoff_prover]
#[verifier::rlimit(60)]
pub proof fn lemma_text_report_level_row(
    st: Statistics,
    parse_errors: nat,
    pct: Percentages,
    l: LogLevel,
)
    ensures
        contains_text(
            text_report_spec(st, parse_errors, pct),
            pad_right(l.name(), 10) + seq![' '] + pad_left(
                number_spec(count_in(level_counts_view(st.entries_by_level@), l)),
                6,
            ) + "   ("@ + pct.level_percents@[l.spec_rank() as int]@ + "%)\n"@,
        ),
{
    let r = l.spec_rank();
    assert(LogLevel::from_rank(r) == l);
    lemma_level_rows_contain(st, pct, 6, r);
    let a = "================== LOG ANALYSIS REPORT ==================\n"@ + period_text(st)
        + summary_text(st, pct) + "\nBY LOG LEVEL\n------------\n"@;
    let b = "\nBY COMPONENT\n------------\n"@ + component_rows(
        st,
        pct,
        sort_by_count(indexed_counts(st.entries_by_component@)),
    ) + "\nParse Errors: "@ + decimal(parse_errors) + " lines skipped\n"@
        + "=========================================================\n"@;
    lemma_contains_within(a, level_rows(st, pct, 6), b, level_row(st, pct, r));
    assert(a + level_rows(st, pct, 6) + b =~= text_report_spec(st, parse_errors, pct));
}

/// Law: the text report has a row for every component of the statistics,
/// with its name, its number of entries and its share.
#[verifier::spinoff_prover]
#[verifier::rlimit(60)]
pub proof fn lemma_text_report_component_row(
    st: Statistics,
    parse_errors: nat,
    pct: Percentages,
    j: int,
)
    requires
        0 <= j < st.entries_by_component.len(),
    ensures
        contains_text(
            text_report_spec(st, parse_errors, pct),
            pad_right(st.entries_by_component@[j].0@, 16) + seq![' '] + pad_left(
                number_spec(st.entries_by_component@[j].1 as nat),
                6,
            ) + "   ("@ + pct.component_percents@[j]@ + "%)\n"@,
        ),
{
    let order = sort_by_count(indexed_counts(st.entries_by_component@));
    let k = lemma_order_holds_position(st.entries_by_component@, j);
    lemma_component_rows_contain(st, pct, order, k);
    let a = "================== LOG ANALYSIS REPORT ==================\n"@ + period_text(st)
        + summary_text(st, pct) + "\nBY LOG LEVEL\n------------\n"@ + level_rows(st, pct, 6)
        + "\nBY COMPONENT\n------------\n"@;
    let b = "\nParse Errors: "@ + decimal(parse_errors) + " lines skipped\n"@
        + "=========================================================\n"@;
    lemma_contains_within(a, component_rows(st, pct, order), b, component_row(st, pct, order[k]));
    assert(a + component_rows(st, pct, order) + b =~= text_report_spec(st, parse_errors, pct));
}

/// A level's name needs no escaping in JSON.
proof fn lemma_level_name_plain(l: LogLevel)
    ensures
        json_escape(l.name()) == l.name(),
{
    reveal_strlit("TRACE");
    reveal_strlit("DEBUG");
    reveal_strlit("INFO");
    reveal_strlit("WARN");
    reveal_strlit("ERROR");
    reveal_strlit("FATAL");
    lemma_json_escape_plain(l.name());
}

/// Law: the JSON report has a member for every level, its name with the
/// number of entries at that level.
#[verifier::spinoff_prover]
#[verifier::rlimit(60)]
pub proof fn lemma_json_report_level_member(
    st: Statistics,
    parse_errors: nat,
    error_rate: Seq<char>,
    l: LogLevel,
)
    ensures
        contains_text(
            json_report_spec(st, parse_errors, error_rate),
            "    \""@ + l.name() + "\": "@ + decimal(
                count_in(level_counts_view(st.entries_by_level@), l),
            ),
        ),
{
    let r = l.spec_rank();
    assert(LogLevel::from_rank(r) == l);
    lemma_level_name_plain(l);
    let rows = json_level_rows(st);
    lemma_join_contains(rows, ",\n"@, r as int);
    lemma_json_report_parts(st, parse_errors, error_rate);
    let a = json_head(st, error_rate) + json_peak(st) + json_active(st)
        + "  \"entries_by_level\": {\n"@;
    let b = "\n  },\n"@ + "  \"entries_by_component\": {\n"@ + join(
        json_component_rows(st, sort_by_count(indexed_counts(st.entries_by_component@))),
        ",\n"@,
    ) + "\n  },\n"@ + "  \"period\": {\n"@ + json_period(st) + "  },\n"@ + ("  \"parse_errors\": "@
        + decimal(parse_errors) + seq!['\n'] + "}\n"@);
    lemma_contains_within(a, join(rows, ",\n"@), b, rows[r as int]);
    assert(a + join(rows, ",\n"@) + b =~= json_report_spec(st, parse_errors, error_rate));
}

/// Law: the JSON report has a member for every component of the
/// statistics, its escaped name with its number of entries.
#[verifier::spinoff_prover]
#[verifier::rlimit(60)]
pub proof fn lemma_json_report_component_member(
    st: Statistics,
    parse_errors: nat,
    error_rate: Seq<char>,
    j: int,
)
    requires
        0 <= j < st.entries_by_component.len(),
    ensures
        contains_text(
            json_report_spec(st, parse_errors, error_rate),
            "    \""@ + json_escape(st.entries_by_component@[j].0@) + "\": "@ + decimal(
                st.entries_by_component@[j].1 as nat,
            ),
        ),
{
    let order = sort_by_count(indexed_counts(st.entries_by_component@));
    let k = lemma_order_holds_position(st.entries_by_component@, j);
    let rows = json_component_rows(st, order);
    lemma_join_contains(rows, ",\n"@, k);
    lemma_json_report_parts(st, parse_errors, error_rate);
    let a = json_head(st, error_rate) + json_peak(st) + json_active(st)
        + "  \"entries_by_level\": {\n"@ + join(json_level_rows(st), ",\n"@) + "\n  },\n"@
        + "  \"entries_by_component\": {\n"@;
    let b = "\n  },\n"@ + "  \"period\": {\n"@ + json_period(st) + "  },\n"@ + (
    "  \"parse_errors\": "@ + decimal(parse_errors) + seq!['\n'] + "}\n"@);
    lemma_contains_within(a, join(rows, ",\n"@), b, rows[k]);
    assert(a + join(rows, ",\n"@) + b =~= json_report_spec(st, parse_errors, error_rate));
}

} // verus!
