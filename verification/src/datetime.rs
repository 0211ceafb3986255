//! Calendar timestamps of log entries: `YYYY-MM-DD HH:MM:SS`.

use vstd::prelude::*;
use std::cmp::Ordering;
use vstd::std_specs::cmp::PartialOrdSpec;
use crate::text::{
    byte_len, char_index, chars_of, decimal, is_boundary, lemma_byte_len_full,
    lemma_byte_len_subrange, lemma_byte_len_take_mono, lemma_byte_len_take_step,
    lemma_char_index_unique, lemma_char_index_props, lemma_zero_padded, lemma_decimal_len,
    lemma_byte_len_ascii, lemma_leading_ws, lemma_trailing_ws, all_digits, is_digit,
    digits_value, parse_small_unsigned, parse_unsigned, pow10, push_chars,
    push_decimal, push_str, push_zero_padded, string_from_chars, trim, trim_bounds, zero_padded,
    index_at_byte, byte_len_of, lemma_byte_len_encoding, lemma_digits_value_bound,
    lemma_zero_padded_digits,
};

verus! {

/// A timestamp as written in a log line.
#[derive(Clone, Copy, Debug, PartialEq, Eq, Structural)]
pub struct DateTime {
    pub year: u16,
    pub month: u8,
    pub day: u8,
    pub hour: u8,
    pub minute: u8,
    pub second: u8,
}

// ---------------------------------------------------------------------------
// Specification of the textual form
// ---------------------------------------------------------------------------

/// The character at byte offset `p` of `u`.
pub open spec fn char_at_byte(u: Seq<char>, p: int) -> char {
    u[char_index(u, p)]
}

/// The one-byte slice `u[p..p + 1]` can be taken: both ends are character
/// boundaries.
pub open spec fn sliceable(u: Seq<char>, p: int) -> bool {
    is_boundary(u, p) && is_boundary(u, p + 1)
}

/// Byte `p` of `u` is the one-byte character `c`: bytes `p` and `p + 1`
/// are character boundaries, and the character between them is `c`.
pub open spec fn separator_at(u: Seq<char>, p: int, c: char) -> bool {
    sliceable(u, p) && char_at_byte(u, p) == c
}

/// The separators of `u` are `-`, `-`, ` `, `:` and `:` at bytes 4, 7, 10,
/// 13 and 16.
pub open spec fn separators_match(u: Seq<char>) -> bool {
    &&& separator_at(u, 4, '-')
    &&& separator_at(u, 7, '-')
    &&& separator_at(u, 10, ' ')
    &&& separator_at(u, 13, ':')
    &&& separator_at(u, 16, ':')
}

/// The characters of `u` between byte offsets `p` and `q`.
pub open spec fn field(u: Seq<char>, p: int, q: int) -> Seq<char> {
    u.subrange(char_index(u, p), char_index(u, q))
}

/// The message for a field that is not a number.
pub open spec fn number_error(name: Seq<char>, f: Seq<char>) -> Seq<char> {
    name + " '"@ + f + "' is not a valid number"@
}

/// The message for a field out of its range.
pub open spec fn range_error(name: Seq<char>, n: nat, range: Seq<char>) -> Seq<char> {
    name + decimal(n) + range
}

/// The text of a timestamp: `YYYY-MM-DD HH:MM:SS`, each field zero-padded.
pub open spec fn display_spec(d: DateTime) -> Seq<char> {
    zero_padded(d.year as nat, 4) + seq!['-'] + zero_padded(d.month as nat, 2) + seq!['-']
        + zero_padded(d.day as nat, 2) + seq![' '] + zero_padded(d.hour as nat, 2) + seq![':']
        + zero_padded(d.minute as nat, 2) + seq![':'] + zero_padded(d.second as nat, 2)
}

/// The timestamp with the given fields, or the message for the first field
/// out of its range.
pub open spec fn check_ranges(
    year: u16,
    month: u8,
    day: u8,
    hour: u8,
    minute: u8,
    second: u8,
) -> Result<DateTime, Seq<char>> {
    if !(1970 <= year <= 9999) {
        Err(range_error("Year "@, year as nat, " out of range (1970-9999)"@))
    } else if !(1 <= month <= 12) {
        Err(range_error("Month "@, month as nat, " out of range (1-12)"@))
    } else if !(1 <= day <= 31) {
        Err(range_error("Day "@, day as nat, " out of range (1-31)"@))
    } else if hour > 23 {
        Err(range_error("Hour "@, hour as nat, " out of range (0-23)"@))
    } else if minute > 59 {
        Err(range_error("Minute "@, minute as nat, " out of range (0-59)"@))
    } else if second > 59 {
        Err(range_error("Second "@, second as nat, " out of range (0-59)"@))
    } else {
        Ok(DateTime { year, month, day, hour, minute, second })
    }
}

/// The timestamp written by the six field texts, or the message for the first
/// field that is not a number.
pub open spec fn parse_fields(
    fy: Seq<char>,
    fmo: Seq<char>,
    fd: Seq<char>,
    fh: Seq<char>,
    fmi: Seq<char>,
    fs: Seq<char>,
) -> Result<DateTime, Seq<char>> {
    if parse_unsigned(fy) is None {
        Err(number_error("Year"@, fy))
    } else if parse_unsigned(fmo) is None {
        Err(number_error("Month"@, fmo))
    } else if parse_unsigned(fd) is None {
        Err(number_error("Day"@, fd))
    } else if parse_unsigned(fh) is None {
        Err(number_error("Hour"@, fh))
    } else if parse_unsigned(fmi) is None {
        Err(number_error("Minute"@, fmi))
    } else if parse_unsigned(fs) is None {
        Err(number_error("Second"@, fs))
    } else {
        check_ranges(
            parse_unsigned(fy)->0 as u16,
            parse_unsigned(fmo)->0 as u8,
            parse_unsigned(fd)->0 as u8,
            parse_unsigned(fh)->0 as u8,
            parse_unsigned(fmi)->0 as u8,
            parse_unsigned(fs)->0 as u8,
        )
    }
}

/// The message for a text that is not 19 bytes long.
pub open spec fn length_error(n: nat) -> Seq<char> {
    "DateTime string must be 19 characters, got "@ + decimal(n)
}

/// What parsing `s` as a timestamp gives: the text is trimmed, must be 19
/// bytes long with its one-byte separators in place, each field made of
/// ASCII digits only, and each number within its range.
pub open spec fn parse_spec(s: Seq<char>) -> Result<DateTime, Seq<char>> {
    let u = trim(s);
    if byte_len(u) != 19 {
        Err(length_error(byte_len(u)))
    } else if !separators_match(u) {
        Err("DateTime format must be YYYY-MM-DD HH:MM:SS"@)
    } else {
        parse_fields(
            field(u, 0, 4),
            field(u, 5, 7),
            field(u, 8, 10),
            field(u, 11, 13),
            field(u, 14, 16),
            field(u, 17, 19),
        )
    }
}

// ---------------------------------------------------------------------------
// Lemmas on byte offsets
// ---------------------------------------------------------------------------

/// Between two character indices there are at most as many characters as
/// bytes.
proof fn lemma_chars_le_bytes(s: Seq<char>, k1: int, k2: int)
    requires
        0 <= k1 <= k2 <= s.len(),
    ensures
        k2 - k1 <= byte_len(s.take(k2)) - byte_len(s.take(k1)),
{
    if k1 < k2 {
        lemma_byte_len_take_mono(s, k1, k2);
    }
}

/// Character indices increase with byte offsets.
proof fn lemma_index_order(u: Seq<char>, p: int, q: int)
    requires
        is_boundary(u, p),
        is_boundary(u, q),
        p < q,
    ensures
        char_index(u, p) < char_index(u, q),
{
    lemma_char_index_props(u, p);
    lemma_char_index_props(u, q);
    if char_index(u, q) < char_index(u, p) {
        lemma_byte_len_take_mono(u, char_index(u, q), char_index(u, p));
    }
}

/// A part of a part of `v` is a part of `v`.
proof fn lemma_sub_subrange(v: Seq<char>, a: int, b: int, i: int, j: int)
    requires
        0 <= a <= b <= v.len(),
        0 <= i <= j <= b - a,
    ensures
        v.subrange(a, b).subrange(i, j) == v.subrange(a + i, a + j),
{
    assert(v.subrange(a, b).subrange(i, j) =~= v.subrange(a + i, a + j));
}

/// Where the fields of a well-formed 19-byte timestamp text lie.
proof fn lemma_layout(u: Seq<char>)
    requires
        byte_len(u) == 19,
        separators_match(u),
    ensures
        char_index(u, 0) == 0,
        char_index(u, 19) == u.len(),
        char_index(u, 5) == char_index(u, 4) + 1,
        char_index(u, 8) == char_index(u, 7) + 1,
        char_index(u, 11) == char_index(u, 10) + 1,
        char_index(u, 14) == char_index(u, 13) + 1,
        char_index(u, 17) == char_index(u, 16) + 1,
        char_index(u, 4) <= 4,
        char_index(u, 5) <= char_index(u, 7) <= char_index(u, 5) + 2,
        char_index(u, 8) <= char_index(u, 10) <= char_index(u, 8) + 2,
        char_index(u, 11) <= char_index(u, 13) <= char_index(u, 11) + 2,
        char_index(u, 14) <= char_index(u, 16) <= char_index(u, 14) + 2,
        char_index(u, 17) <= u.len() <= char_index(u, 17) + 2,
{
    lemma_char_index_ends(u);
    lemma_index_order(u, 4, 19);
    lemma_index_order(u, 7, 19);
    lemma_index_order(u, 10, 19);
    lemma_index_order(u, 13, 19);
    lemma_index_order(u, 16, 19);
    lemma_after_ascii(u, 4);
    lemma_after_ascii(u, 7);
    lemma_after_ascii(u, 10);
    lemma_after_ascii(u, 13);
    lemma_after_ascii(u, 16);
    lemma_index_order(u, 5, 7);
    lemma_index_order(u, 8, 10);
    lemma_index_order(u, 11, 13);
    lemma_index_order(u, 14, 16);
    lemma_index_order(u, 17, 19);
    lemma_char_index_props(u, 4);
    lemma_char_index_props(u, 5);
    lemma_char_index_props(u, 7);
    lemma_char_index_props(u, 8);
    lemma_char_index_props(u, 10);
    lemma_char_index_props(u, 11);
    lemma_char_index_props(u, 13);
    lemma_char_index_props(u, 14);
    lemma_char_index_props(u, 16);
    lemma_char_index_props(u, 17);
    lemma_chars_le_bytes(u, 0, char_index(u, 4));
    lemma_chars_le_bytes(u, char_index(u, 5), char_index(u, 7));
    lemma_chars_le_bytes(u, char_index(u, 8), char_index(u, 10));
    lemma_chars_le_bytes(u, char_index(u, 11), char_index(u, 13));
    lemma_chars_le_bytes(u, char_index(u, 14), char_index(u, 16));
    lemma_chars_le_bytes(u, char_index(u, 17), u.len() as int);
    lemma_byte_len_full(u);
}

/// Offsets 0 and `byte_len(u)` are the ends of `u`.
proof fn lemma_char_index_ends(u: Seq<char>)
    ensures
        char_index(u, 0) == 0,
        char_index(u, byte_len(u) as int) == u.len(),
        is_boundary(u, 0),
        is_boundary(u, byte_len(u) as int),
{
    assert(u.take(0) =~= Seq::<char>::empty());
    lemma_char_index_unique(u, 0, 0);
    lemma_byte_len_full(u);
    lemma_char_index_unique(u, byte_len(u) as int, u.len() as int);
}

/// A one-byte character at offset `p` ends at offset `p + 1`.
proof fn lemma_after_ascii(u: Seq<char>, p: int)
    requires
        is_boundary(u, p),
        char_index(u, p) < u.len(),
        (char_at_byte(u, p) as u32) < 0x80,
    ensures
        is_boundary(u, p + 1),
        char_index(u, p + 1) == char_index(u, p) + 1,
{
    let k = char_index(u, p);
    lemma_char_index_props(u, p);
    lemma_byte_len_take_step(u, k);
    lemma_char_index_unique(u, p + 1, k + 1);
}

// ---------------------------------------------------------------------------
// Ordering
// ---------------------------------------------------------------------------

/// `a` comes before `b` in day, then hour, minute and second.
pub open spec fn earlier_in_month(a: DateTime, b: DateTime) -> bool {
    ||| a.day < b.day
    ||| a.day == b.day && a.hour < b.hour
    ||| a.day == b.day && a.hour == b.hour && a.minute < b.minute
    ||| a.day == b.day && a.hour == b.hour && a.minute == b.minute && a.second < b.second
}

/// Law: among valid timestamps, one in an earlier year orders first; within
/// a year one in an earlier month orders first, unless it falls on day 31 and
/// the other on the next month (months count as 30 days); and within one
/// month timestamps order by day, hour, minute and second.
pub proof fn lemma_order_chronological(a: DateTime, b: DateTime)
    requires
        a.is_valid(),
        b.is_valid(),
    ensures
        a.year < b.year ==> a.seconds() < b.seconds(),
        a.year == b.year && a.month < b.month && a.day <= 30 ==> a.seconds() < b.seconds(),
        a.year == b.year && a.month + 2 <= b.month ==> a.seconds() < b.seconds(),
        a.year == b.year && a.month == b.month ==> (a.seconds() < b.seconds() <==> earlier_in_month(
            a,
            b,
        )),
        a.year == b.year && a.month == b.month ==> (a.seconds() == b.seconds() <==> a == b),
{
}

/// Law: a timestamp that parses has every field within its range.
pub proof fn lemma_parsed_is_valid(s: Seq<char>)
    ensures
        parse_spec(s) matches Ok(d) ==> d.is_valid(),
{
}

// ---------------------------------------------------------------------------
// Rendering and parsing agree
// ---------------------------------------------------------------------------

/// A field of digits, of the given length, parses as its value.
proof fn lemma_field_parses(f: Seq<char>, n: nat)
    requires
        f.len() > 0,
        all_digits(f),
        digits_value(f) == n,
    ensures
        parse_unsigned(f) == Some(n),
{
    assert(is_digit(f[0]));
}

/// The characters of a rendered valid timestamp: digits at the field
/// positions and the separators between them, all ASCII.
pub proof fn lemma_display_layout(d: DateTime)
    requires
        d.is_valid(),
    ensures
        display_spec(d).len() == 19,
        display_spec(d).subrange(0, 4) == zero_padded(d.year as nat, 4),
        display_spec(d).subrange(5, 7) == zero_padded(d.month as nat, 2),
        display_spec(d).subrange(8, 10) == zero_padded(d.day as nat, 2),
        display_spec(d).subrange(11, 13) == zero_padded(d.hour as nat, 2),
        display_spec(d).subrange(14, 16) == zero_padded(d.minute as nat, 2),
        display_spec(d).subrange(17, 19) == zero_padded(d.second as nat, 2),
        display_spec(d)[4] == '-',
        display_spec(d)[7] == '-',
        display_spec(d)[10] == ' ',
        display_spec(d)[13] == ':',
        display_spec(d)[16] == ':',
        forall|i: int| 0 <= i < 19 ==> (#[trigger] display_spec(d)[i] as u32) < 0x80,
        is_digit(display_spec(d)[0]),
        is_digit(display_spec(d)[18]),
{
    let y = zero_padded(d.year as nat, 4);
    let mo = zero_padded(d.month as nat, 2);
    let da = zero_padded(d.day as nat, 2);
    let h = zero_padded(d.hour as nat, 2);
    let mi = zero_padded(d.minute as nat, 2);
    let se = zero_padded(d.second as nat, 2);
    lemma_decimal_len(d.year as nat);
    lemma_decimal_len(d.month as nat);
    lemma_decimal_len(d.day as nat);
    lemma_decimal_len(d.hour as nat);
    lemma_decimal_len(d.minute as nat);
    lemma_decimal_len(d.second as nat);
    lemma_zero_padded(d.year as nat, 4);
    lemma_zero_padded(d.month as nat, 2);
    lemma_zero_padded(d.day as nat, 2);
    lemma_zero_padded(d.hour as nat, 2);
    lemma_zero_padded(d.minute as nat, 2);
    lemma_zero_padded(d.second as nat, 2);
    let u = display_spec(d);
    assert(u.subrange(0, 4) =~= y);
    assert(u.subrange(5, 7) =~= mo);
    assert(u.subrange(8, 10) =~= da);
    assert(u.subrange(11, 13) =~= h);
    assert(u.subrange(14, 16) =~= mi);
    assert(u.subrange(17, 19) =~= se);
    assert forall|i: int| 0 <= i < 19 implies (#[trigger] u[i] as u32) < 0x80 by {
        if 0 <= i < 4 {
            assert(u[i] == y[i]);
            assert(is_digit(y[i]));
        } else if 5 <= i < 7 {
            assert(u[i] == mo[i - 5]);
            assert(is_digit(mo[i - 5]));
        } else if 8 <= i < 10 {
            assert(u[i] == da[i - 8]);
            assert(is_digit(da[i - 8]));
        } else if 11 <= i < 13 {
            assert(u[i] == h[i - 11]);
            assert(is_digit(h[i - 11]));
        } else if 14 <= i < 16 {
            assert(u[i] == mi[i - 14]);
            assert(is_digit(mi[i - 14]));
        } else if 17 <= i < 19 {
            assert(u[i] == se[i - 17]);
            assert(is_digit(se[i - 17]));
        }
    }
    assert(u[0] == y[0]);
    assert(u[18] == se[1]);
}

/// Law: a valid timestamp, rendered as `YYYY-MM-DD HH:MM:SS`, parses back to
/// itself.
pub proof fn lemma_display_then_parse(d: DateTime)
    requires
        d.is_valid(),
    ensures
        parse_spec(display_spec(d)) == Ok::<DateTime, Seq<char>>(d),
{
    let u = display_spec(d);
    lemma_display_layout(d);
    // No surrounding whitespace.
    lemma_leading_ws(u, 0);
    assert(u.len() - 1 - 0 == 18);
    lemma_trailing_ws(u, 0);
    assert(trim(u) =~= u);
    // One byte per character.
    lemma_byte_len_ascii(u);
    assert forall|p: int| 0 <= p <= 19 implies is_boundary(u, p) && #[trigger] char_index(u, p)
        == p by {
        assert forall|i: int| 0 <= i < u.take(p).len() implies (#[trigger] u.take(p)[i] as u32)
            < 0x80 by {
            assert(u.take(p)[i] == u[i]);
        }
        lemma_byte_len_ascii(u.take(p));
        lemma_char_index_unique(u, p, p);
    }
    assert(char_index(u, 4) == 4);
    assert(char_index(u, 7) == 7);
    assert(char_index(u, 10) == 10);
    assert(char_index(u, 13) == 13);
    assert(char_index(u, 16) == 16);
    assert(char_index(u, 5) == 5);
    assert(char_index(u, 8) == 8);
    assert(char_index(u, 11) == 11);
    assert(char_index(u, 14) == 14);
    assert(char_index(u, 17) == 17);
    assert(char_index(u, 0) == 0);
    assert(char_index(u, 19) == 19);
    assert(char_index(u, 6) == 6);
    assert(char_index(u, 9) == 9);
    assert(char_index(u, 12) == 12);
    assert(char_index(u, 15) == 15);
    assert(separators_match(u));
    // Each field reads back as its value.
    lemma_zero_padded(d.year as nat, 4);
    lemma_zero_padded(d.month as nat, 2);
    lemma_zero_padded(d.day as nat, 2);
    lemma_zero_padded(d.hour as nat, 2);
    lemma_zero_padded(d.minute as nat, 2);
    lemma_zero_padded(d.second as nat, 2);
    lemma_field_parses(field(u, 0, 4), d.year as nat);
    lemma_field_parses(field(u, 5, 7), d.month as nat);
    lemma_field_parses(field(u, 8, 10), d.day as nat);
    lemma_field_parses(field(u, 11, 13), d.hour as nat);
    lemma_field_parses(field(u, 14, 16), d.minute as nat);
    lemma_field_parses(field(u, 17, 19), d.second as nat);
}

// ---------------------------------------------------------------------------
// When parsing succeeds
// ---------------------------------------------------------------------------

/// `u` is written `YYYY-MM-DD HH:MM:SS`: nineteen characters, the five
/// separators in place and ASCII digits everywhere else.
pub open spec fn timestamp_shaped(u: Seq<char>) -> bool {
    &&& u.len() == 19
    &&& u[4] == '-'
    &&& u[7] == '-'
    &&& u[10] == ' '
    &&& u[13] == ':'
    &&& u[16] == ':'
    &&& forall|i: int|
        0 <= i < 19 && i != 4 && i != 7 && i != 10 && i != 13 && i != 16 ==> is_digit(
            #[trigger] u[i],
        )
}

/// The timestamp whose fields are the numbers written in a text shaped
/// `YYYY-MM-DD HH:MM:SS`.
pub open spec fn timestamp_fields(u: Seq<char>) -> DateTime {
    DateTime {
        year: digits_value(u.subrange(0, 4)) as u16,
        month: digits_value(u.subrange(5, 7)) as u8,
        day: digits_value(u.subrange(8, 10)) as u8,
        hour: digits_value(u.subrange(11, 13)) as u8,
        minute: digits_value(u.subrange(14, 16)) as u8,
        second: digits_value(u.subrange(17, 19)) as u8,
    }
}

/// In an ASCII text, byte offset `p` is a character boundary at character
/// index `p`.
proof fn lemma_ascii_offset(u: Seq<char>, p: int)
    requires
        forall|i: int| 0 <= i < u.len() ==> (#[trigger] u[i] as u32) < 0x80,
        0 <= p <= u.len(),
    ensures
        is_boundary(u, p),
        char_index(u, p) == p,
{
    let x = u.take(p);
    assert forall|i: int| 0 <= i < x.len() implies (#[trigger] x[i] as u32) < 0x80 by {
        assert(x[i] == u[i]);
    }
    lemma_byte_len_ascii(x);
    lemma_char_index_unique(u, p, p);
}

/// In an ASCII text, the byte offsets of the fields of `YYYY-MM-DD HH:MM:SS`
/// are character boundaries at the same character index.
proof fn lemma_ascii_offsets(u: Seq<char>)
    requires
        forall|i: int| 0 <= i < u.len() ==> (#[trigger] u[i] as u32) < 0x80,
        u.len() == 19,
    ensures
        byte_len(u) == 19,
        is_boundary(u, 0) && char_index(u, 0) == 0,
        is_boundary(u, 4) && char_index(u, 4) == 4,
        is_boundary(u, 5) && char_index(u, 5) == 5,
        is_boundary(u, 6) && char_index(u, 6) == 6,
        is_boundary(u, 7) && char_index(u, 7) == 7,
        is_boundary(u, 8) && char_index(u, 8) == 8,
        is_boundary(u, 9) && char_index(u, 9) == 9,
        is_boundary(u, 10) && char_index(u, 10) == 10,
        is_boundary(u, 11) && char_index(u, 11) == 11,
        is_boundary(u, 12) && char_index(u, 12) == 12,
        is_boundary(u, 13) && char_index(u, 13) == 13,
        is_boundary(u, 14) && char_index(u, 14) == 14,
        is_boundary(u, 15) && char_index(u, 15) == 15,
        is_boundary(u, 16) && char_index(u, 16) == 16,
        is_boundary(u, 17) && char_index(u, 17) == 17,
        is_boundary(u, 19) && char_index(u, 19) == 19,
{
    lemma_byte_len_ascii(u);
    lemma_ascii_offset(u, 0);
    lemma_ascii_offset(u, 4);
    lemma_ascii_offset(u, 5);
    lemma_ascii_offset(u, 6);
    lemma_ascii_offset(u, 7);
    lemma_ascii_offset(u, 8);
    lemma_ascii_offset(u, 9);
    lemma_ascii_offset(u, 10);
    lemma_ascii_offset(u, 11);
    lemma_ascii_offset(u, 12);
    lemma_ascii_offset(u, 13);
    lemma_ascii_offset(u, 14);
    lemma_ascii_offset(u, 15);
    lemma_ascii_offset(u, 16);
    lemma_ascii_offset(u, 17);
    lemma_ascii_offset(u, 19);
}

/// A text shaped `YYYY-MM-DD HH:MM:SS` is 19 bytes long, its separators
/// stand at their byte offsets and its fields are its digit runs.
proof fn lemma_shaped_layout(u: Seq<char>)
    requires
        timestamp_shaped(u),
    ensures
        byte_len(u) == 19,
        separators_match(u),
        field(u, 0, 4) == u.subrange(0, 4),
        field(u, 5, 7) == u.subrange(5, 7),
        field(u, 8, 10) == u.subrange(8, 10),
        field(u, 11, 13) == u.subrange(11, 13),
        field(u, 14, 16) == u.subrange(14, 16),
        field(u, 17, 19) == u.subrange(17, 19),
{
    assert forall|i: int| 0 <= i < u.len() implies (#[trigger] u[i] as u32) < 0x80 by {
        if i != 4 && i != 7 && i != 10 && i != 13 && i != 16 {
            assert(is_digit(u[i]));
        }
    }
    lemma_ascii_offsets(u);
}

/// A run of digits within `u[a..b]`.
proof fn lemma_sub_digits(u: Seq<char>, a: int, b: int)
    requires
        0 <= a <= b <= u.len(),
        forall|i: int| a <= i < b ==> is_digit(#[trigger] u[i]),
    ensures
        all_digits(u.subrange(a, b)),
{
    assert forall|i: int| 0 <= i < u.subrange(a, b).len() implies is_digit(
        #[trigger] u.subrange(a, b)[i],
    ) by {
        assert(u.subrange(a, b)[i] == u[a + i]);
    }
}

/// A 19-byte text whose separators match and whose six fields are runs of
/// digits is shaped `YYYY-MM-DD HH:MM:SS`.
proof fn lemma_fields_shape(u: Seq<char>)
    requires
        byte_len(u) == 19,
        separators_match(u),
        all_digits(field(u, 0, 4)),
        all_digits(field(u, 5, 7)),
        all_digits(field(u, 8, 10)),
        all_digits(field(u, 11, 13)),
        all_digits(field(u, 14, 16)),
        all_digits(field(u, 17, 19)),
    ensures
        timestamp_shaped(u),
        field(u, 0, 4) == u.subrange(0, 4),
        field(u, 5, 7) == u.subrange(5, 7),
        field(u, 8, 10) == u.subrange(8, 10),
        field(u, 11, 13) == u.subrange(11, 13),
        field(u, 14, 16) == u.subrange(14, 16),
        field(u, 17, 19) == u.subrange(17, 19),
{
    lemma_layout(u);
    let k4 = char_index(u, 4);
    let k7 = char_index(u, 7);
    let k10 = char_index(u, 10);
    let k13 = char_index(u, 13);
    let k16 = char_index(u, 16);
    lemma_char_index_props(u, 4);
    assert(0 <= k4 < k7 < k10 < k13 < k16 < u.len());
    assert(field(u, 0, 4) == u.subrange(0, k4));
    assert(field(u, 5, 7) == u.subrange(k4 + 1, k7));
    assert(field(u, 8, 10) == u.subrange(k7 + 1, k10));
    assert(field(u, 11, 13) == u.subrange(k10 + 1, k13));
    assert(field(u, 14, 16) == u.subrange(k13 + 1, k16));
    assert(field(u, 17, 19) == u.subrange(k16 + 1, u.len() as int));
    assert forall|i: int| 0 <= i < u.len() implies (#[trigger] u[i] as u32) < 0x80 by {
        if i < k4 {
            assert(field(u, 0, 4)[i] == u[i]);
            assert(is_digit(field(u, 0, 4)[i]));
        } else if i == k4 || i == k7 || i == k10 || i == k13 || i == k16 {
        } else if i < k7 {
            assert(k4 < i < k7);
            assert(u.subrange(k4 + 1, k7)[i - (k4 + 1)] == u[i]);
            assert(is_digit(field(u, 5, 7)[i - (k4 + 1)]));
        } else if i < k10 {
            assert(k7 < i < k10);
            assert(u.subrange(k7 + 1, k10)[i - (k7 + 1)] == u[i]);
            assert(is_digit(field(u, 8, 10)[i - (k7 + 1)]));
        } else if i < k13 {
            assert(k10 < i < k13);
            assert(u.subrange(k10 + 1, k13)[i - (k10 + 1)] == u[i]);
            assert(is_digit(field(u, 11, 13)[i - (k10 + 1)]));
        } else if i < k16 {
            assert(k13 < i < k16);
            assert(u.subrange(k13 + 1, k16)[i - (k13 + 1)] == u[i]);
            assert(is_digit(field(u, 14, 16)[i - (k13 + 1)]));
        } else {
            assert(k16 < i);
            assert(u.subrange(k16 + 1, u.len() as int)[i - (k16 + 1)] == u[i]);
            assert(is_digit(field(u, 17, 19)[i - (k16 + 1)]));
        }
    }
    lemma_byte_len_ascii(u);
    lemma_ascii_offsets(u);
    assert forall|i: int|
        0 <= i < 19 && i != 4 && i != 7 && i != 10 && i != 13 && i != 16 implies is_digit(
        #[trigger] u[i],
    ) by {
        if i < 4 {
            assert(field(u, 0, 4)[i] == u[i]);
        } else if i < 7 {
            assert(field(u, 5, 7)[i - 5] == u[i]);
        } else if i < 10 {
            assert(field(u, 8, 10)[i - 8] == u[i]);
        } else if i < 13 {
            assert(field(u, 11, 13)[i - 11] == u[i]);
        } else if i < 16 {
            assert(field(u, 14, 16)[i - 14] == u[i]);
        } else {
            assert(field(u, 17, 19)[i - 17] == u[i]);
        }
    }
}

/// Law: parsing a timestamp succeeds exactly on a text that, once trimmed, is
/// shaped `YYYY-MM-DD HH:MM:SS` with every field within its range; the result
/// holds the numbers written, and rendering it gives back the trimmed text.
pub proof fn lemma_parse_characterized(s: Seq<char>)
    ensures
        parse_spec(s) is Ok <==> (timestamp_shaped(trim(s)) && timestamp_fields(
            trim(s),
        ).is_valid()),
        parse_spec(s) matches Ok(d) ==> d == timestamp_fields(trim(s)) && display_spec(d) == trim(
            s,
        ),
{
    let u = trim(s);
    if timestamp_shaped(u) {
        lemma_shaped_layout(u);
        lemma_sub_digits(u, 0, 4);
        lemma_sub_digits(u, 5, 7);
        lemma_sub_digits(u, 8, 10);
        lemma_sub_digits(u, 11, 13);
        lemma_sub_digits(u, 14, 16);
        lemma_sub_digits(u, 17, 19);
        lemma_field_parses(u.subrange(0, 4), digits_value(u.subrange(0, 4)));
        lemma_field_parses(u.subrange(5, 7), digits_value(u.subrange(5, 7)));
        lemma_field_parses(u.subrange(8, 10), digits_value(u.subrange(8, 10)));
        lemma_field_parses(u.subrange(11, 13), digits_value(u.subrange(11, 13)));
        lemma_field_parses(u.subrange(14, 16), digits_value(u.subrange(14, 16)));
        lemma_field_parses(u.subrange(17, 19), digits_value(u.subrange(17, 19)));
        if let Ok(d) = parse_spec(s) {
            assert(d == timestamp_fields(u));
            lemma_digits_value_bound(u.subrange(0, 4));
            lemma_digits_value_bound(u.subrange(5, 7));
            lemma_digits_value_bound(u.subrange(8, 10));
            lemma_digits_value_bound(u.subrange(11, 13));
            lemma_digits_value_bound(u.subrange(14, 16));
            lemma_digits_value_bound(u.subrange(17, 19));
            reveal_with_fuel(pow10, 5);
            lemma_zero_padded_digits(u.subrange(0, 4));
            lemma_zero_padded_digits(u.subrange(5, 7));
            lemma_zero_padded_digits(u.subrange(8, 10));
            lemma_zero_padded_digits(u.subrange(11, 13));
            lemma_zero_padded_digits(u.subrange(14, 16));
            lemma_zero_padded_digits(u.subrange(17, 19));
            assert(display_spec(d) =~= u);
        }
    } else if byte_len(u) == 19 && separators_match(u) {
        let fy = field(u, 0, 4);
        let fmo = field(u, 5, 7);
        let fd = field(u, 8, 10);
        let fh = field(u, 11, 13);
        let fmi = field(u, 14, 16);
        let fs = field(u, 17, 19);
        if parse_unsigned(fy) is Some && parse_unsigned(fmo) is Some && parse_unsigned(fd) is Some
            && parse_unsigned(fh) is Some && parse_unsigned(fmi) is Some && parse_unsigned(
            fs,
        ) is Some {
            lemma_fields_shape(u);
        }
    }
}

// ---------------------------------------------------------------------------
// Parsing
// ---------------------------------------------------------------------------

/// Examines the separator at byte offset `p` of `v[a..b]`: whether byte `p`
/// is the one-byte character `c`, and then its character index.
fn separator(v: &Vec<char>, a: usize, b: usize, p: usize, c: char) -> (r: (bool, usize))
    requires
        a <= b <= v.len(),
        p < usize::MAX,
    ensures
        r.0 == separator_at(v@.subrange(a as int, b as int), p as int, c),
        r.0 ==> r.1 == char_index(v@.subrange(a as int, b as int), p as int),
        r.0 ==> r.1 < b - a,
{
    let ghost u = v@.subrange(a as int, b as int);
    if !DateTime::sliceable_at(v, a, b, p) {
        return (false, 0);
    }
    proof {
        lemma_char_index_props(u, p + 1);
    }
    let k = match index_at_byte(v, a, b, p) {
        Some(k) => k,
        None => {
            assert(false);
            0
        },
    };
    proof {
        let k1 = char_index(u, p + 1);
        lemma_char_index_props(u, p as int);
        if k1 <= k {
            if k1 < k {
                lemma_byte_len_take_mono(u, k1, k as int);
            }
        }
    }
    assert(u[k as int] == v@[a + k]);
    (v[a + k] == c, k)
}

/// The digits of field `name` of `v[a..b]`, or the message naming it.
fn field_number(
    v: &Vec<char>,
    a: usize,
    b: usize,
    from: usize,
    to: usize,
    name: &str,
) -> (r: Result<u32, Vec<char>>)
    requires
        a <= from <= to <= b <= v.len(),
        to - from <= 4,
    ensures
        r matches Ok(x) ==> parse_unsigned(v@.subrange(from as int, to as int)) == Some(x as nat)
            && x < pow10((to - from) as nat),
        r matches Err(e) ==> parse_unsigned(v@.subrange(from as int, to as int)) is None && e@
            == number_error(name@, v@.subrange(from as int, to as int)),
{
    match parse_small_unsigned(v, from, to) {
        Some(x) => Ok(x),
        None => {
            let mut e: Vec<char> = Vec::new();
            push_str(&mut e, name);
            push_str(&mut e, " '");
            push_chars(&mut e, v, from, to);
            push_str(&mut e, "' is not a valid number");
            Err(e)
        },
    }
}

/// The message `prefix`, `n`, `suffix`.
fn range_message(prefix: &str, n: u64, suffix: &str) -> (e: Vec<char>)
    ensures
        e@ == range_error(prefix@, n as nat, suffix@),
{
    let mut e: Vec<char> = Vec::new();
    push_str(&mut e, prefix);
    push_decimal(&mut e, n);
    push_str(&mut e, suffix);
    e
}

/// Trims `v[from..to]`, checks its length and separators, and gives the
/// trimmed bounds `(a, b)` with the character indices of the five separators.
#[verifier::spinoff_prover]
#[verifier::rlimit(40)]
fn locate_fields(v: &Vec<char>, from: usize, to: usize) -> (r: Result<
    (usize, usize, usize, usize, usize, usize, usize),
    Vec<char>,
>)
    requires
        from <= to <= v.len(),
        byte_len(v@.subrange(from as int, to as int)) <= usize::MAX,
    ensures
        r matches Err(e) ==> parse_spec(v@.subrange(from as int, to as int)) == Err::<
            DateTime,
            Seq<char>,
        >(e@),
        r matches Ok((a, b, k4, k7, k10, k13, k16)) ==> {
            let u = trim(v@.subrange(from as int, to as int));
            &&& from <= a <= b <= to
            &&& u == v@.subrange(a as int, b as int)
            &&& byte_len(u) == 19
            &&& separators_match(u)
            &&& k4 <= 4 && k4 + 1 <= k7 && k7 - (k4 + 1) <= 2
            &&& k7 + 1 <= k10 && k10 - (k7 + 1) <= 2
            &&& k10 + 1 <= k13 && k13 - (k10 + 1) <= 2
            &&& k13 + 1 <= k16 && k16 - (k13 + 1) <= 2
            &&& a + k16 + 1 <= b && b - (a + k16 + 1) <= 2
            &&& field(u, 0, 4) == v@.subrange(a as int, a + k4)
            &&& field(u, 5, 7) == v@.subrange(a + k4 + 1, a + k7)
            &&& field(u, 8, 10) == v@.subrange(a + k7 + 1, a + k10)
            &&& field(u, 11, 13) == v@.subrange(a + k10 + 1, a + k13)
            &&& field(u, 14, 16) == v@.subrange(a + k13 + 1, a + k16)
            &&& field(u, 17, 19) == v@.subrange(a + k16 + 1, b as int)
        },
{
    let ghost s = v@.subrange(from as int, to as int);
    let (a, b) = trim_bounds(v, from, to);
    let ghost u = v@.subrange(a as int, b as int);
    assert(u == trim(s));
    proof {
        assert(u =~= s.subrange(a - from, b - from));
        lemma_byte_len_subrange(s, a - from, b - from);
    }
    let n = byte_len_of(v, a, b);
    if n != 19 {
        let mut e: Vec<char> = Vec::new();
        push_str(&mut e, "DateTime string must be 19 characters, got ");
        push_decimal(&mut e, n as u64);
        return Err(e);
    }
    let (ok4, k4) = separator(v, a, b, 4, '-');
    if !ok4 {
        return Err(chars_of("DateTime format must be YYYY-MM-DD HH:MM:SS"));
    }
    let (ok7, k7) = separator(v, a, b, 7, '-');
    if !ok7 {
        return Err(chars_of("DateTime format must be YYYY-MM-DD HH:MM:SS"));
    }
    let (ok10, k10) = separator(v, a, b, 10, ' ');
    if !ok10 {
        return Err(chars_of("DateTime format must be YYYY-MM-DD HH:MM:SS"));
    }
    let (ok13, k13) = separator(v, a, b, 13, ':');
    if !ok13 {
        return Err(chars_of("DateTime format must be YYYY-MM-DD HH:MM:SS"));
    }
    let (ok16, k16) = separator(v, a, b, 16, ':');
    if !ok16 {
        return Err(chars_of("DateTime format must be YYYY-MM-DD HH:MM:SS"));
    }
    proof {
        lemma_layout(u);
        lemma_sub_subrange(v@, a as int, b as int, 0, k4 as int);
        lemma_sub_subrange(v@, a as int, b as int, k4 + 1, k7 as int);
        lemma_sub_subrange(v@, a as int, b as int, k7 + 1, k10 as int);
        lemma_sub_subrange(v@, a as int, b as int, k10 + 1, k13 as int);
        lemma_sub_subrange(v@, a as int, b as int, k13 + 1, k16 as int);
        lemma_sub_subrange(v@, a as int, b as int, k16 + 1, b - a);
    }
    Ok((a, b, k4, k7, k10, k13, k16))
}

/// The timestamp with the given fields, or the message for the first field out
/// of its range.
fn check_ranges_exec(year: u16, month: u8, day: u8, hour: u8, minute: u8, second: u8) -> (r:
    Result<DateTime, Vec<char>>)
    ensures
        r matches Ok(d) ==> check_ranges(year, month, day, hour, minute, second) == Ok::<
            DateTime,
            Seq<char>,
        >(d),
        r matches Err(e) ==> check_ranges(year, month, day, hour, minute, second) == Err::<
            DateTime,
            Seq<char>,
        >(e@),
{
    if !(1970 <= year && year <= 9999) {
        return Err(range_message("Year ", year as u64, " out of range (1970-9999)"));
    }
    if !(1 <= month && month <= 12) {
        return Err(range_message("Month ", month as u64, " out of range (1-12)"));
    }
    if !(1 <= day && day <= 31) {
        return Err(range_message("Day ", day as u64, " out of range (1-31)"));
    }
    if hour > 23 {
        return Err(range_message("Hour ", hour as u64, " out of range (0-23)"));
    }
    if minute > 59 {
        return Err(range_message("Minute ", minute as u64, " out of range (0-59)"));
    }
    if second > 59 {
        return Err(range_message("Second ", second as u64, " out of range (0-59)"));
    }
    Ok(DateTime { year, month, day, hour, minute, second })
}

impl DateTime {
    /// Seconds since year zero, counting every year as 365 days and every
    /// month as 30 days: the key by which timestamps are ordered.
    pub open spec fn seconds(self) -> nat {
        self.year as nat * 31536000 + self.month as nat * 2592000 + self.day as nat * 86400
            + self.hour as nat * 3600 + self.minute as nat * 60 + self.second as nat
    }

    /// The fields are within the ranges that parsing accepts.
    pub open spec fn is_valid(self) -> bool {
        &&& 1970 <= self.year <= 9999
        &&& 1 <= self.month <= 12
        &&& 1 <= self.day <= 31
        &&& self.hour <= 23
        &&& self.minute <= 59
        &&& self.second <= 59
    }

    /// Converts to the ordering key: seconds, with 365-day years and 30-day
    /// months.
    pub fn to_seconds(&self) -> (s: u64)
        ensures
            s == self.seconds(),
    {
        let y = self.year as u64;
        let m = self.month as u64;
        let d = self.day as u64;
        let h = self.hour as u64;
        let min = self.minute as u64;
        let s = self.second as u64;
        y * 365 * 24 * 3600 + m * 30 * 24 * 3600 + d * 24 * 3600 + h * 3600 + min * 60 + s
    }

    /// The characters of `YYYY-MM-DD HH:MM:SS`.
    pub fn push_display(&self, out: &mut Vec<char>)
        ensures
            final(out)@ == old(out)@ + display_spec(*self),
    {
        push_zero_padded(out, self.year as u64, 4);
        out.push('-');
        push_zero_padded(out, self.month as u64, 2);
        out.push('-');
        push_zero_padded(out, self.day as u64, 2);
        out.push(' ');
        push_zero_padded(out, self.hour as u64, 2);
        out.push(':');
        push_zero_padded(out, self.minute as u64, 2);
        out.push(':');
        push_zero_padded(out, self.second as u64, 2);
        assert(final(out)@ =~= old(out)@ + display_spec(*self));
    }

    /// Renders the timestamp as `YYYY-MM-DD HH:MM:SS`.
    pub fn to_string(&self) -> (s: String)
        ensures
            s@ == display_spec(*self),
    {
        let mut out: Vec<char> = Vec::new();
        self.push_display(&mut out);
        assert(out@ =~= display_spec(*self));
        string_from_chars(&out)
    }

    /// Parses `v[from..to]` as a timestamp; the error is the message.
    pub fn parse_chars(v: &Vec<char>, from: usize, to: usize) -> (r: Result<DateTime, Vec<char>>)
        requires
            from <= to <= v.len(),
            byte_len(v@.subrange(from as int, to as int)) <= usize::MAX,
        ensures
            r matches Ok(d) ==> parse_spec(v@.subrange(from as int, to as int)) == Ok::<
                DateTime,
                Seq<char>,
            >(d),
            r matches Err(e) ==> parse_spec(v@.subrange(from as int, to as int)) == Err::<
                DateTime,
                Seq<char>,
            >(e@),
    {
        let (a, b, k4, k7, k10, k13, k16) = match locate_fields(v, from, to) {
            Ok(t) => t,
            Err(e) => {
                return Err(e);
            },
        };
        let year = match field_number(v, a, b, a, a + k4, "Year") {
            Ok(x) => x,
            Err(e) => {
                return Err(e);
            },
        };
        let month = match field_number(v, a, b, a + k4 + 1, a + k7, "Month") {
            Ok(x) => x,
            Err(e) => {
                return Err(e);
            },
        };
        let day = match field_number(v, a, b, a + k7 + 1, a + k10, "Day") {
            Ok(x) => x,
            Err(e) => {
                return Err(e);
            },
        };
        let hour = match field_number(v, a, b, a + k10 + 1, a + k13, "Hour") {
            Ok(x) => x,
            Err(e) => {
                return Err(e);
            },
        };
        let minute = match field_number(v, a, b, a + k13 + 1, a + k16, "Minute") {
            Ok(x) => x,
            Err(e) => {
                return Err(e);
            },
        };
        let second = match field_number(v, a, b, a + k16 + 1, b, "Second") {
            Ok(x) => x,
            Err(e) => {
                return Err(e);
            },
        };
        proof {
            reveal_with_fuel(pow10, 5);
        }
        check_ranges_exec(
            year as u16,
            month as u8,
            day as u8,
            hour as u8,
            minute as u8,
            second as u8,
        )
    }

    /// Whether bytes `p` and `p + 1` of `v[a..b]` are character boundaries.
    fn sliceable_at(v: &Vec<char>, a: usize, b: usize, p: usize) -> (r: bool)
        requires
            a <= b <= v.len(),
            p < usize::MAX,
        ensures
            r == sliceable(v@.subrange(a as int, b as int), p as int),
    {
        index_at_byte(v, a, b, p).is_some() && index_at_byte(v, a, b, p + 1).is_some()
    }

    /// Parses `YYYY-MM-DD HH:MM:SS`, surrounding whitespace allowed; the error
    /// says what is wrong.
    pub fn from_str(s: &str) -> (r: Result<DateTime, String>)
        ensures
            r matches Ok(d) ==> parse_spec(s@) == Ok::<DateTime, Seq<char>>(d),
            r matches Err(e) ==> parse_spec(s@) == Err::<DateTime, Seq<char>>(e@),
    {
        let n = s.as_bytes().len();
        proof {
            lemma_byte_len_encoding(s@);
        }
        assert(byte_len(s@) == n);
        let v = chars_of(s);
        assert(v@.subrange(0, v@.len() as int) =~= s@);
        match Self::parse_chars(&v, 0, v.len()) {
            Ok(d) => Ok(d),
            Err(e) => Err(string_from_chars(&e)),
        }
    }
}

impl PartialOrd for DateTime {
    /// Timestamps are ordered by `to_seconds`.
    fn partial_cmp(&self, other: &Self) -> (r: Option<Ordering>) {
        let a = self.to_seconds();
        let b = other.to_seconds();
        if a < b {
            Some(Ordering::Less)
        } else if a > b {
            Some(Ordering::Greater)
        } else {
            Some(Ordering::Equal)
        }
    }
}

impl vstd::std_specs::cmp::PartialOrdSpecImpl for DateTime {
    open spec fn obeys_partial_cmp_spec() -> bool {
        true
    }

    open spec fn partial_cmp_spec(&self, other: &Self) -> Option<Ordering> {
        if self.seconds() < other.seconds() {
            Some(Ordering::Less)
        } else if self.seconds() > other.seconds() {
            Some(Ordering::Greater)
        } else {
            Some(Ordering::Equal)
        }
    }
}

/// Law: timestamps compare as their ordering keys do; so, among valid
/// timestamps, one in an earlier year, or on an earlier day or time of the
/// same month, compares as less.
pub proof fn lemma_compare_chronological(a: DateTime, b: DateTime)
    ensures
        a.seconds() < b.seconds() ==> a.partial_cmp_spec(&b) == Some(Ordering::Less),
        a.seconds() > b.seconds() ==> a.partial_cmp_spec(&b) == Some(Ordering::Greater),
        a.seconds() == b.seconds() ==> a.partial_cmp_spec(&b) == Some(Ordering::Equal),
        a.is_valid() && b.is_valid() && a.year < b.year ==> a.partial_cmp_spec(&b) == Some(
            Ordering::Less,
        ),
        a.is_valid() && b.is_valid() && a.year == b.year && a.month == b.month && earlier_in_month(
            a,
            b,
        ) ==> a.partial_cmp_spec(&b) == Some(Ordering::Less),
{
    if a.is_valid() && b.is_valid() {
        lemma_order_chronological(a, b);
    }
}

} // verus!
