//! Character-level text utilities shared by the parsers and the report
//! builders: Unicode whitespace trimming, UTF-8 byte offsets, decimal
//! rendering and ASCII case folding, each with its specification.

use vstd::prelude::*;

verus! {

broadcast use vstd::string::group_string_axioms;

// ---------------------------------------------------------------------------
// Whitespace and trimming
// ---------------------------------------------------------------------------

/// Unicode `White_Space`, the property that `char::is_whitespace` tests.
pub open spec fn is_ws(c: char) -> bool {
    let u = c as u32;
    ||| 0x09 <= u <= 0x0D
    ||| u == 0x20
    ||| u == 0x85
    ||| u == 0xA0
    ||| u == 0x1680
    ||| 0x2000 <= u <= 0x200A
    ||| u == 0x2028
    ||| u == 0x2029
    ||| u == 0x202F
    ||| u == 0x205F
    ||| u == 0x3000
}

/// Number of whitespace characters at the start of `s`.
pub open spec fn leading_ws(s: Seq<char>) -> nat
    decreases s.len(),
{
    if s.len() == 0 {
        0
    } else if is_ws(s[0]) {
        1 + leading_ws(s.drop_first())
    } else {
        0
    }
}

/// Number of whitespace characters at the end of `s`.
pub open spec fn trailing_ws(s: Seq<char>) -> nat
    decreases s.len(),
{
    if s.len() == 0 {
        0
    } else if is_ws(s.last()) {
        1 + trailing_ws(s.drop_last())
    } else {
        0
    }
}

/// `s` without leading whitespace (`str::trim_start`).
pub open spec fn trim_start(s: Seq<char>) -> Seq<char> {
    s.skip(leading_ws(s) as int)
}

/// `s` without trailing whitespace (`str::trim_end`).
pub open spec fn trim_end(s: Seq<char>) -> Seq<char> {
    s.take(s.len() - trailing_ws(s))
}

/// `s` without leading and trailing whitespace (`str::trim`).
pub open spec fn trim(s: Seq<char>) -> Seq<char> {
    trim_end(trim_start(s))
}

pub proof fn lemma_leading_ws(s: Seq<char>, i: int)
    requires
        0 <= i <= s.len(),
        forall|j: int| 0 <= j < i ==> is_ws(#[trigger] s[j]),
        i == s.len() || !is_ws(s[i]),
    ensures
        leading_ws(s) == i,
    decreases i,
{
    if i > 0 {
        lemma_leading_ws(s.drop_first(), i - 1);
    }
}

pub proof fn lemma_trailing_ws(s: Seq<char>, i: int)
    requires
        0 <= i <= s.len(),
        forall|j: int| s.len() - i <= j < s.len() ==> is_ws(#[trigger] s[j]),
        i == s.len() || !is_ws(s[s.len() - 1 - i]),
    ensures
        trailing_ws(s) == i,
    decreases i,
{
    if i > 0 {
        lemma_trailing_ws(s.drop_last(), i - 1);
    }
}

pub proof fn lemma_leading_ws_bound(s: Seq<char>)
    ensures
        leading_ws(s) <= s.len(),
        forall|j: int| 0 <= j < leading_ws(s) ==> is_ws(#[trigger] s[j]),
        leading_ws(s) < s.len() ==> !is_ws(s[leading_ws(s) as int]),
    decreases s.len(),
{
    if s.len() > 0 && is_ws(s[0]) {
        lemma_leading_ws_bound(s.drop_first());
        assert forall|j: int| 0 <= j < leading_ws(s) implies is_ws(#[trigger] s[j]) by {
            if j > 0 {
                assert(s[j] == s.drop_first()[j - 1]);
            }
        }
    }
}

pub proof fn lemma_trailing_ws_bound(s: Seq<char>)
    ensures
        trailing_ws(s) <= s.len(),
        forall|j: int| s.len() - trailing_ws(s) <= j < s.len() ==> is_ws(#[trigger] s[j]),
        trailing_ws(s) < s.len() ==> !is_ws(s[s.len() - 1 - trailing_ws(s)]),
    decreases s.len(),
{
    if s.len() > 0 && is_ws(s.last()) {
        lemma_trailing_ws_bound(s.drop_last());
        assert forall|j: int| s.len() - trailing_ws(s) <= j < s.len() implies is_ws(
            #[trigger] s[j],
        ) by {
            if j < s.len() - 1 {
                assert(s[j] == s.drop_last()[j]);
            }
        }
    }
}

/// Where `s` starts with `a` whitespace characters and ends with `s.len() - b`
/// of them, with non-whitespace at `a` and `b - 1`, trimming keeps
/// `s[a..b]`.
pub proof fn lemma_trim_known(s: Seq<char>, a: int, b: int)
    requires
        0 <= a < b <= s.len(),
        forall|j: int| 0 <= j < a ==> is_ws(#[trigger] s[j]),
        forall|j: int| b <= j < s.len() ==> is_ws(#[trigger] s[j]),
        !is_ws(s[a]),
        !is_ws(s[b - 1]),
    ensures
        trim_start(s) == s.skip(a),
        trim(s) == s.subrange(a, b),
{
    lemma_leading_ws(s, a);
    let t = s.skip(a);
    assert forall|j: int| t.len() - (s.len() - b) <= j < t.len() implies is_ws(#[trigger] t[j]) by {
        assert(t[j] == s[a + j]);
    }
    assert(t[t.len() - 1 - (s.len() - b)] == s[b - 1]);
    lemma_trailing_ws(t, s.len() - b);
    assert(trim(s) =~= s.subrange(a, b));
}

/// A trimmed non-empty text starts and ends with non-whitespace.
pub proof fn lemma_trimmed_ends(s: Seq<char>)
    requires
        trim(s) == s,
        s.len() > 0,
    ensures
        !is_ws(s[0]),
        !is_ws(s[s.len() - 1]),
{
    lemma_leading_ws_bound(s);
    let a = trim_start(s);
    lemma_trailing_ws_bound(a);
    assert(trim(s).len() <= a.len());
    assert(a.len() == s.len() - leading_ws(s));
    if is_ws(s[0]) {
        assert(leading_ws(s) >= 1);
    }
    if is_ws(s[s.len() - 1]) && !is_ws(s[0]) {
        assert(leading_ws(s) == 0);
        assert(a =~= s);
        assert(trailing_ws(a) >= 1);
    }
}

/// Trimming a trimmed text changes nothing.
pub proof fn lemma_trim_idempotent(s: Seq<char>)
    ensures
        trim(trim(s)) == trim(s),
{
    let a = trim_start(s);
    lemma_leading_ws_bound(s);
    lemma_trailing_ws_bound(a);
    let t = trim(s);
    if t.len() > 0 {
        assert(t[0] == s[leading_ws(s) as int]);
        assert(t[t.len() - 1] == a[a.len() - 1 - trailing_ws(a)]);
        lemma_trim_known(t, 0, t.len() as int);
        assert(t.subrange(0, t.len() as int) =~= t);
    } else {
        assert(trim(t) =~= t);
    }
}

/// Every character of `trim(s)` is a character of `s`.
pub proof fn lemma_trim_within(s: Seq<char>)
    ensures
        forall|k: int| 0 <= k < trim(s).len() ==> #[trigger] trim(s)[k] == s[leading_ws(s) + k],
        leading_ws(s) + trim(s).len() <= s.len(),
{
    lemma_leading_ws_bound(s);
    lemma_trailing_ws_bound(trim_start(s));
}

/// Trimming the start of `x + y`, where `y` starts with a character that is
/// not whitespace, trims the start of `x` only.
pub proof fn lemma_trim_start_concat(x: Seq<char>, y: Seq<char>)
    requires
        y.len() > 0,
        !is_ws(y[0]),
    ensures
        leading_ws(x + y) == leading_ws(x),
        trim_start(x + y) == trim_start(x) + y,
{
    lemma_leading_ws_bound(x);
    let i = leading_ws(x) as int;
    let s = x + y;
    assert forall|j: int| 0 <= j < i implies is_ws(#[trigger] s[j]) by {
        assert(s[j] == x[j]);
    }
    if i < x.len() {
        assert(s[i] == x[i]);
    } else {
        assert(s[i] == y[0]);
    }
    lemma_leading_ws(s, i);
    assert(trim_start(s) =~= trim_start(x) + y);
}

/// Trimming after trimming the start is trimming.
pub proof fn lemma_trim_after_trim_start(c: Seq<char>)
    ensures
        trim_start(trim_start(c)) == trim_start(c),
        trim(trim_start(c)) == trim(c),
{
    lemma_leading_ws_bound(c);
    let a = trim_start(c);
    if a.len() > 0 {
        assert(a[0] == c[leading_ws(c) as int]);
    }
    lemma_leading_ws(a, 0);
    assert(a.skip(0) =~= a);
}

/// Law: trimming keeps the run of `s` between its first and last character
/// that is not whitespace; everything cut off is whitespace, and a non-empty
/// result starts and ends with a character that is not.
pub proof fn lemma_trim_characterized(s: Seq<char>)
    ensures
        exists|a: int, b: int|
            0 <= a <= b <= s.len() && trim(s) == s.subrange(a, b) && (forall|i: int|
                0 <= i < a ==> is_ws(#[trigger] s[i])) && (forall|i: int|
                b <= i < s.len() ==> is_ws(#[trigger] s[i])),
        trim(s).len() > 0 ==> !is_ws(trim(s)[0]) && !is_ws(trim(s)[trim(s).len() - 1]),
        trim(s).len() == 0 ==> forall|i: int| 0 <= i < s.len() ==> is_ws(#[trigger] s[i]),
{
    lemma_leading_ws_bound(s);
    let a = leading_ws(s) as int;
    let t = trim_start(s);
    lemma_trailing_ws_bound(t);
    let b = (s.len() - trailing_ws(t)) as int;
    assert(trim(s) =~= s.subrange(a, b));
    assert forall|i: int| b <= i < s.len() implies is_ws(#[trigger] s[i]) by {
        assert(s[i] == t[i - a]);
    }
    if trim(s).len() > 0 {
        assert(trim(s)[0] == s[a]);
        assert(trim(s)[trim(s).len() - 1] == t[t.len() - 1 - trailing_ws(t)]);
    } else {
        assert forall|i: int| 0 <= i < s.len() implies is_ws(#[trigger] s[i]) by {
            if i >= a {
                assert(s[i] == t[i - a]);
            }
        }
    }
}

/// Whether `c` is Unicode whitespace.
pub fn is_whitespace(c: char) -> (b: bool)
    ensures
        b == is_ws(c),
{
    let u = c as u32;
    (0x09 <= u && u <= 0x0D) || u == 0x20 || u == 0x85 || u == 0xA0 || u == 0x1680 || (0x2000
        <= u && u <= 0x200A) || u == 0x2028 || u == 0x2029 || u == 0x202F || u == 0x205F || u
        == 0x3000
}

/// The bounds `(start, end)` of `v[from..to]` with surrounding whitespace
/// removed: `v@.subrange(start, end)` is the trimmed text.
pub fn trim_bounds(v: &Vec<char>, from: usize, to: usize) -> (r: (usize, usize))
    requires
        from <= to <= v.len(),
    ensures
        from <= r.0 <= r.1 <= to,
        v@.subrange(r.0 as int, r.1 as int) == trim(v@.subrange(from as int, to as int)),
        r.0 == from + leading_ws(v@.subrange(from as int, to as int)),
{
    let ghost s = v@.subrange(from as int, to as int);
    let mut i = from;
    while i < to && is_whitespace(v[i])
        invariant
            from <= i <= to <= v.len(),
            s == v@.subrange(from as int, to as int),
            forall|j: int| from <= j < i ==> is_ws(#[trigger] v@[j]),
        decreases to - i,
    {
        i += 1;
    }
    proof {
        assert forall|j: int| 0 <= j < i - from implies is_ws(#[trigger] s[j]) by {
            assert(s[j] == v@[from + j]);
        }
        lemma_leading_ws(s, i - from);
    }
    let ghost t = trim_start(s);
    assert(t == v@.subrange(i as int, to as int));
    let mut k = to;
    while k > i && is_whitespace(v[k - 1])
        invariant
            from <= i <= k <= to <= v.len(),
            t == v@.subrange(i as int, to as int),
            forall|j: int| k <= j < to ==> is_ws(#[trigger] v@[j]),
        decreases k - i,
    {
        k -= 1;
    }
    proof {
        assert forall|j: int| t.len() - (to - k) <= j < t.len() implies is_ws(#[trigger] t[j]) by {
            assert(t[j] == v@[i + j]);
        }
        if k > i {
            assert(t[t.len() - 1 - (to - k)] == v@[k - 1]);
        }
        lemma_trailing_ws(t, to - k);
        assert(trim(s) =~= v@.subrange(i as int, k as int));
    }
    (i, k)
}

// ---------------------------------------------------------------------------
// UTF-8 byte offsets
// ---------------------------------------------------------------------------

/// Number of bytes in the UTF-8 encoding of `c`.
pub open spec fn utf8_width(c: char) -> nat {
    let u = c as u32;
    if u < 0x80 {
        1
    } else if u < 0x800 {
        2
    } else if u < 0x10000 {
        3
    } else {
        4
    }
}

/// Number of bytes in the UTF-8 encoding of `s` (`str::len`).
pub open spec fn byte_len(s: Seq<char>) -> nat
    decreases s.len(),
{
    if s.len() == 0 {
        0
    } else {
        byte_len(s.drop_last()) + utf8_width(s.last())
    }
}

/// Byte offset `b` of the UTF-8 encoding of `s` falls between two characters
/// (`str::is_char_boundary`).
pub closed spec fn is_boundary(s: Seq<char>, b: int) -> bool {
    exists|k: int| 0 <= k <= s.len() && byte_len(s.take(k)) == b
}

/// The number of characters that precede byte offset `b`, where `b` is a
/// boundary.
pub closed spec fn char_index(s: Seq<char>, b: int) -> int {
    choose|k: int| 0 <= k <= s.len() && byte_len(s.take(k)) == b
}

pub proof fn lemma_byte_len_take_step(s: Seq<char>, k: int)
    requires
        0 <= k < s.len(),
    ensures
        byte_len(s.take(k + 1)) == byte_len(s.take(k)) + utf8_width(s[k]),
{
    assert(s.take(k + 1).drop_last() =~= s.take(k));
}

pub proof fn lemma_byte_len_take_mono(s: Seq<char>, k1: int, k2: int)
    requires
        0 <= k1 < k2 <= s.len(),
    ensures
        byte_len(s.take(k1)) + k2 - k1 <= byte_len(s.take(k2)),
    decreases k2 - k1,
{
    lemma_byte_len_take_step(s, k2 - 1);
    if k1 < k2 - 1 {
        lemma_byte_len_take_mono(s, k1, k2 - 1);
    }
}

pub proof fn lemma_byte_len_full(s: Seq<char>)
    ensures
        s.take(s.len() as int) == s,
        s.len() <= byte_len(s),
{
    assert(s.take(s.len() as int) =~= s);
    assert(s.take(0) =~= Seq::<char>::empty());
    if s.len() > 0 {
        lemma_byte_len_take_mono(s, 0, s.len() as int);
    }
}

/// The character index at a boundary is where the byte offset is reached.
pub proof fn lemma_char_index_props(s: Seq<char>, b: int)
    requires
        is_boundary(s, b),
    ensures
        0 <= char_index(s, b) <= s.len(),
        byte_len(s.take(char_index(s, b))) == b,
{
}

/// At most one character index sits at a byte offset.
pub proof fn lemma_char_index_unique(s: Seq<char>, b: int, k: int)
    requires
        0 <= k <= s.len(),
        byte_len(s.take(k)) == b,
    ensures
        is_boundary(s, b),
        char_index(s, b) == k,
{
    let k2 = char_index(s, b);
    if k2 < k {
        lemma_byte_len_take_mono(s, k2, k);
    } else if k < k2 {
        lemma_byte_len_take_mono(s, k, k2);
    }
}

/// The UTF-8 width of `c`.
pub fn char_width(c: char) -> (w: usize)
    ensures
        w == utf8_width(c),
{
    let u = c as u32;
    if u < 0x80 {
        1
    } else if u < 0x800 {
        2
    } else if u < 0x10000 {
        3
    } else {
        4
    }
}

/// `byte_len` distributes over concatenation.
pub proof fn lemma_byte_len_concat(x: Seq<char>, y: Seq<char>)
    ensures
        byte_len(x + y) == byte_len(x) + byte_len(y),
    decreases y.len(),
{
    if y.len() == 0 {
        assert(x + y =~= x);
    } else {
        assert((x + y).drop_last() =~= x + y.drop_last());
        lemma_byte_len_concat(x, y.drop_last());
    }
}

/// `byte_len` counts the bytes of the UTF-8 encoding.
pub proof fn lemma_byte_len_encoding(s: Seq<char>)
    ensures
        vstd::utf8::encode_utf8(s).len() == byte_len(s),
    decreases s.len(),
{
    if s.len() > 0 {
        let c = s[0];
        let rest = s.drop_first();
        lemma_byte_len_encoding(rest);
        assert(seq![c] + rest =~= s);
        lemma_byte_len_concat(seq![c], rest);
        assert(seq![c].drop_last() =~= Seq::<char>::empty());
        vstd::utf8::char_is_scalar(c);
        assert(vstd::utf8::encode_scalar(c as u32).len() == utf8_width(c));
        assert(seq![c].last() == c);
        assert(byte_len(Seq::<char>::empty()) == 0);
        assert(byte_len(seq![c]) == utf8_width(c));
        assert(vstd::utf8::encode_utf8(s) == vstd::utf8::encode_scalar(c as u32)
            + vstd::utf8::encode_utf8(rest));
    }
}

/// A part of a text is no longer, in bytes, than the text.
pub proof fn lemma_byte_len_subrange(s: Seq<char>, a: int, b: int)
    requires
        0 <= a <= b <= s.len(),
    ensures
        byte_len(s.subrange(a, b)) <= byte_len(s),
{
    assert(s =~= s.subrange(0, a) + s.subrange(a, b) + s.subrange(b, s.len() as int));
    lemma_byte_len_concat(s.subrange(0, a) + s.subrange(a, b), s.subrange(b, s.len() as int));
    lemma_byte_len_concat(s.subrange(0, a), s.subrange(a, b));
}

/// The character index at byte offset `b` of `v[from..to]`, if `b` is a
/// boundary there; `None` otherwise.
pub fn index_at_byte(v: &Vec<char>, from: usize, to: usize, b: usize) -> (r: Option<usize>)
    requires
        from <= to <= v.len(),
    ensures
        r is Some <==> is_boundary(v@.subrange(from as int, to as int), b as int),
        r matches Some(k) ==> k <= to - from && k == char_index(
            v@.subrange(from as int, to as int),
            b as int,
        ),
{
    let ghost s = v@.subrange(from as int, to as int);
    let mut k: usize = 0;
    let mut acc: usize = 0;
    assert(s.take(0) =~= Seq::<char>::empty());
    while from + k < to && acc < b
        invariant
            from <= to <= v.len(),
            s == v@.subrange(from as int, to as int),
            k <= s.len(),
            acc == byte_len(s.take(k as int)),
            acc <= b || k == 0,
            forall|j: int| 0 <= j < k ==> byte_len(s.take(j)) < b,
        decreases to - from - k,
    {
        proof {
            lemma_byte_len_take_step(s, k as int);
        }
        assert(s[k as int] == v@[from + k]);
        let w = char_width(v[from + k]);
        if w > b - acc {
            proof {
                assert forall|j: int| 0 <= j <= s.len() implies byte_len(s.take(j)) != b by {
                    if j > k + 1 {
                        lemma_byte_len_take_mono(s, k + 1, j);
                    }
                }
            }
            return None;
        }
        acc = acc + w;
        k = k + 1;
    }
    if acc == b {
        proof {
            lemma_char_index_unique(s, b as int, k as int);
        }
        Some(k)
    } else {
        proof {
            assert forall|j: int| 0 <= j <= s.len() implies byte_len(s.take(j)) != b by {
                if j > k {
                    lemma_byte_len_take_mono(s, k as int, j);
                }
            }
        }
        None
    }
}

/// The UTF-8 byte length of `v[from..to]`.
pub fn byte_len_of(v: &Vec<char>, from: usize, to: usize) -> (n: usize)
    requires
        from <= to <= v.len(),
        byte_len(v@.subrange(from as int, to as int)) <= usize::MAX,
    ensures
        n == byte_len(v@.subrange(from as int, to as int)),
{
    let ghost s = v@.subrange(from as int, to as int);
    let mut k: usize = 0;
    let mut acc: usize = 0;
    assert(s.take(0) =~= Seq::<char>::empty());
    proof {
        lemma_byte_len_full(s);
    }
    while k < to - from
        invariant
            from <= to <= v.len(),
            s == v@.subrange(from as int, to as int),
            s.take(s.len() as int) == s,
            byte_len(s) <= usize::MAX,
            k <= s.len(),
            acc == byte_len(s.take(k as int)),
        decreases to - from - k,
    {
        proof {
            lemma_byte_len_take_step(s, k as int);
            if k + 1 < s.len() {
                lemma_byte_len_take_mono(s, k + 1, s.len() as int);
            }
        }
        assert(s[k as int] == v@[from + k]);
        let w = char_width(v[from + k]);
        acc = acc + w;
        k = k + 1;
    }
    acc
}

/// Whether `v[from..to]` is at least `n` bytes long in UTF-8.
pub fn byte_len_at_least(v: &Vec<char>, from: usize, to: usize, n: usize) -> (r: bool)
    requires
        from <= to <= v.len(),
    ensures
        r == (byte_len(v@.subrange(from as int, to as int)) >= n),
{
    let ghost s = v@.subrange(from as int, to as int);
    let mut k: usize = 0;
    let mut acc: usize = 0;
    assert(s.take(0) =~= Seq::<char>::empty());
    proof {
        lemma_byte_len_full(s);
    }
    if n == 0 {
        return true;
    }
    while k < to - from
        invariant
            from <= to <= v.len(),
            s == v@.subrange(from as int, to as int),
            s.take(s.len() as int) == s,
            k <= s.len(),
            acc == byte_len(s.take(k as int)),
            acc < n,
        decreases to - from - k,
    {
        proof {
            lemma_byte_len_take_step(s, k as int);
        }
        assert(s[k as int] == v@[from + k]);
        let w = char_width(v[from + k]);
        if w >= n - acc {
            proof {
                if k + 1 < s.len() {
                    lemma_byte_len_take_mono(s, k + 1, s.len() as int);
                }
            }
            return true;
        }
        acc = acc + w;
        k = k + 1;
    }
    false
}

// ---------------------------------------------------------------------------
// Searching
// ---------------------------------------------------------------------------

/// The index of the first `c` in `s` (`str::find` with a character).
pub open spec fn find_first(s: Seq<char>, c: char) -> Option<int>
    decreases s.len(),
{
    if s.len() == 0 {
        None
    } else if s[0] == c {
        Some(0)
    } else {
        match find_first(s.drop_first(), c) {
            Some(i) => Some(i + 1),
            None => None,
        }
    }
}

pub proof fn lemma_find_first(s: Seq<char>, c: char, i: int)
    requires
        0 <= i <= s.len(),
        forall|j: int| 0 <= j < i ==> #[trigger] s[j] != c,
        i == s.len() || s[i] == c,
    ensures
        find_first(s, c) == (if i == s.len() {
            None::<int>
        } else {
            Some(i)
        }),
    decreases i,
{
    if i > 0 {
        assert forall|j: int| 0 <= j < i - 1 implies #[trigger] s.drop_first()[j] != c by {
            assert(s.drop_first()[j] == s[j + 1]);
        }
        lemma_find_first(s.drop_first(), c, i - 1);
    }
}

/// Where `find_first` finds `c`, it is there and nowhere before.
pub proof fn lemma_find_first_found(s: Seq<char>, c: char)
    ensures
        find_first(s, c) matches Some(i) ==> {
            &&& 0 <= i < s.len()
            &&& s[i] == c
            &&& forall|j: int| 0 <= j < i ==> #[trigger] s[j] != c
        },
    decreases s.len(),
{
    if s.len() > 0 && s[0] != c {
        lemma_find_first_found(s.drop_first(), c);
        if let Some(i) = find_first(s, c) {
            assert forall|j: int| 0 <= j < i implies #[trigger] s[j] != c by {
                if j > 0 {
                    assert(s[j] == s.drop_first()[j - 1]);
                }
            }
        }
    }
}

/// The index, relative to `from`, of the first `c` in `v[from..to]`.
pub fn find_char(v: &Vec<char>, from: usize, to: usize, c: char) -> (r: Option<usize>)
    requires
        from <= to <= v.len(),
    ensures
        r matches Some(i) ==> i < to - from && find_first(v@.subrange(from as int, to as int), c)
            == Some(i as int) && v@[from + i] == c,
        r is None ==> find_first(v@.subrange(from as int, to as int), c) is None,
{
    let ghost s = v@.subrange(from as int, to as int);
    let mut i = from;
    while i < to
        invariant
            from <= i <= to <= v.len(),
            s == v@.subrange(from as int, to as int),
            forall|j: int| 0 <= j < i - from ==> #[trigger] s[j] != c,
        decreases to - i,
    {
        assert(s[i - from] == v@[i as int]);
        if v[i] == c {
            proof {
                lemma_find_first(s, c, i - from);
            }
            return Some(i - from);
        }
        i += 1;
    }
    proof {
        lemma_find_first(s, c, s.len() as int);
    }
    None
}

// ---------------------------------------------------------------------------
// Strings and characters
// ---------------------------------------------------------------------------

/// The characters of `s`, in order.
pub fn chars_of(s: &str) -> (v: Vec<char>)
    ensures
        v@ == s@,
{
    let mut v: Vec<char> = Vec::new();
    for c in it: s.chars()
        invariant
            it.seq() == s@,
            v@ == s@.take(it.index() as int),
    {
        v.push(c);
    }
    v
}

/// Whether `a` and `b` are the same text.
pub fn same_text(a: &str, b: &str) -> (r: bool)
    ensures
        r == (a@ == b@),
{
    let x = chars_of(a);
    let y = chars_of(b);
    if x.len() != y.len() {
        return false;
    }
    let mut i: usize = 0;
    while i < x.len()
        invariant
            x@ == a@,
            y@ == b@,
            x.len() == y.len(),
            i <= x.len(),
            forall|j: int| 0 <= j < i ==> x@[j] == y@[j],
        decreases x.len() - i,
    {
        if x[i] != y[i] {
            return false;
        }
        i += 1;
    }
    assert(x@ =~= y@);
    true
}

/// `String`'s `FromIterator<char>`: the string made of the characters of `v`.
#[verifier::external_body]
pub fn string_from_chars(v: &Vec<char>) -> (s: String)
    ensures
        s@ == v@,
{
    v.iter().collect()
}

/// Appends the characters of `s` to `out`.
pub fn push_str(out: &mut Vec<char>, s: &str)
    ensures
        final(out)@ == old(out)@ + s@,
{
    let cs = chars_of(s);
    push_chars(out, &cs, 0, cs.len());
}

/// The string made of `v[from..to]`.
pub fn string_of_range(v: &Vec<char>, from: usize, to: usize) -> (s: String)
    requires
        from <= to <= v.len(),
    ensures
        s@ == v@.subrange(from as int, to as int),
{
    let mut out: Vec<char> = Vec::new();
    push_chars(&mut out, v, from, to);
    assert(out@ =~= v@.subrange(from as int, to as int));
    string_from_chars(&out)
}

/// Appends `v[from..to]` to `out`.
pub fn push_chars(out: &mut Vec<char>, v: &Vec<char>, from: usize, to: usize)
    requires
        from <= to <= v.len(),
    ensures
        final(out)@ == old(out)@ + v@.subrange(from as int, to as int),
{
    let mut i = from;
    while i < to
        invariant
            from <= i <= to <= v.len(),
            out@ == old(out)@ + v@.subrange(from as int, i as int),
        decreases to - i,
    {
        out.push(v[i]);
        proof {
            assert(v@.subrange(from as int, i + 1) =~= v@.subrange(from as int, i as int).push(
                v@[i as int],
            ));
        }
        i += 1;
    }
}

/// Appends `n` copies of `c` to `out`.
pub fn push_repeat(out: &mut Vec<char>, c: char, n: usize)
    ensures
        final(out)@ == old(out)@ + Seq::new(n as nat, |_i: int| c),
{
    let mut i: usize = 0;
    while i < n
        invariant
            i <= n,
            out@ == old(out)@ + Seq::new(i as nat, |_i: int| c),
        decreases n - i,
    {
        out.push(c);
        i += 1;
        proof {
            assert(old(out)@ + Seq::new(i as nat, |_i: int| c) =~= old(out)@ + Seq::new(
                (i - 1) as nat,
                |_i: int| c,
            ) + seq![c]);
        }
    }
}

// ---------------------------------------------------------------------------
// Decimal numbers
// ---------------------------------------------------------------------------

/// The ASCII digit for `d < 10`.
pub open spec fn digit_char(d: nat) -> char {
    if d == 0 {
        '0'
    } else if d == 1 {
        '1'
    } else if d == 2 {
        '2'
    } else if d == 3 {
        '3'
    } else if d == 4 {
        '4'
    } else if d == 5 {
        '5'
    } else if d == 6 {
        '6'
    } else if d == 7 {
        '7'
    } else if d == 8 {
        '8'
    } else {
        '9'
    }
}

/// The decimal representation of `n` (`n.to_string()`).
pub open spec fn decimal(n: nat) -> Seq<char>
    decreases n,
{
    if n < 10 {
        seq![digit_char(n)]
    } else {
        decimal(n / 10) + seq![digit_char(n % 10)]
    }
}

/// `decimal(n)`, left-padded with zeros to at least `width` characters
/// (`format!("{:0width$}", n)`).
pub open spec fn zero_padded(n: nat, width: nat) -> Seq<char> {
    let d = decimal(n);
    if d.len() >= width {
        d
    } else {
        Seq::new((width - d.len()) as nat, |_i: int| '0') + d
    }
}

/// The ASCII digit for `d`.
pub fn digit(d: u64) -> (c: char)
    requires
        d < 10,
    ensures
        c == digit_char(d as nat),
{
    if d == 0 {
        '0'
    } else if d == 1 {
        '1'
    } else if d == 2 {
        '2'
    } else if d == 3 {
        '3'
    } else if d == 4 {
        '4'
    } else if d == 5 {
        '5'
    } else if d == 6 {
        '6'
    } else if d == 7 {
        '7'
    } else if d == 8 {
        '8'
    } else {
        '9'
    }
}

/// Appends the decimal representation of `n` to `out`.
pub fn push_decimal(out: &mut Vec<char>, n: u64)
    ensures
        final(out)@ == old(out)@ + decimal(n as nat),
    decreases n,
{
    if n < 10 {
        out.push(digit(n));
    } else {
        push_decimal(out, n / 10);
        out.push(digit(n % 10));
    }
}

pub proof fn lemma_decimal_len(n: nat)
    ensures
        decimal(n).len() >= 1,
        n < 10 <==> decimal(n).len() == 1,
        n < 100 <==> decimal(n).len() <= 2,
        n < 1000 <==> decimal(n).len() <= 3,
        n < 10000 <==> decimal(n).len() <= 4,
    decreases n,
{
    if n >= 10 {
        lemma_decimal_len(n / 10);
    }
}

/// The digit for `d` is a digit worth `d`.
pub proof fn lemma_digit_char(d: nat)
    requires
        d < 10,
    ensures
        is_digit(digit_char(d)),
        ((digit_char(d) as u32) - 48) as nat == d,
{
}

/// A decimal representation is made of digits and reads back as the number.
pub proof fn lemma_decimal_digits(n: nat)
    ensures
        all_digits(decimal(n)),
        digits_value(decimal(n)) == n,
    decreases n,
{
    let d = decimal(n);
    lemma_digit_char(n % 10);
    if n < 10 {
        assert(d.drop_last() =~= Seq::<char>::empty());
        assert(n % 10 == n);
        assert(digits_value(d.drop_last()) == 0);
        assert(d.last() == digit_char(n));
    } else {
        lemma_decimal_digits(n / 10);
        assert(n == (n / 10) * 10 + n % 10);
        assert(d.last() == digit_char(n % 10));
        assert(digits_value(d) == digits_value(d.drop_last()) * 10 + ((d.last() as u32) - 48) as nat);
        assert(d.drop_last() =~= decimal(n / 10));
        assert forall|i: int| 0 <= i < d.len() implies is_digit(#[trigger] d[i]) by {
            if i < d.len() - 1 {
                assert(d[i] == decimal(n / 10)[i]);
            }
        }
    }
}

/// Leading zeros do not change the value of digits.
pub proof fn lemma_digits_value_zeros(k: nat, s: Seq<char>)
    ensures
        digits_value(Seq::new(k, |_i: int| '0') + s) == digits_value(s),
    decreases s.len(), k,
{
    let z = Seq::new(k, |_i: int| '0');
    if s.len() == 0 {
        assert(z + s =~= z);
        if k > 0 {
            assert(z.drop_last() =~= Seq::new((k - 1) as nat, |_i: int| '0'));
            lemma_digits_value_zeros((k - 1) as nat, s);
            assert(Seq::new((k - 1) as nat, |_i: int| '0') + s =~= Seq::new(
                (k - 1) as nat,
                |_i: int| '0',
            ));
        }
    } else {
        assert((z + s).drop_last() =~= z + s.drop_last());
        lemma_digits_value_zeros(k, s.drop_last());
    }
}

/// A zero-padded number is made of digits, reads back as the number, and is
/// `width` long where the number fits.
pub proof fn lemma_zero_padded(n: nat, width: nat)
    ensures
        all_digits(zero_padded(n, width)),
        digits_value(zero_padded(n, width)) == n,
        decimal(n).len() <= width ==> zero_padded(n, width).len() == width,
{
    lemma_decimal_digits(n);
    let d = decimal(n);
    if d.len() < width {
        let k = (width - d.len()) as nat;
        lemma_digits_value_zeros(k, d);
        let p = Seq::new(k, |_i: int| '0') + d;
        assert forall|i: int| 0 <= i < p.len() implies is_digit(#[trigger] p[i]) by {
            if i >= k {
                assert(p[i] == d[i - k]);
            }
        }
    }
}

/// Texts of ASCII characters have one byte per character.
pub proof fn lemma_byte_len_ascii(s: Seq<char>)
    requires
        forall|i: int| 0 <= i < s.len() ==> (#[trigger] s[i] as u32) < 0x80,
    ensures
        byte_len(s) == s.len(),
    decreases s.len(),
{
    if s.len() > 0 {
        assert forall|i: int| 0 <= i < s.drop_last().len() implies (
        #[trigger] s.drop_last()[i] as u32) < 0x80 by {
            assert(s.drop_last()[i] == s[i]);
        }
        lemma_byte_len_ascii(s.drop_last());
        assert((s[s.len() - 1] as u32) < 0x80);
    }
}

/// Appends `n` zero-padded to `width` characters.
pub fn push_zero_padded(out: &mut Vec<char>, n: u64, width: usize)
    ensures
        final(out)@ == old(out)@ + zero_padded(n as nat, width as nat),
{
    let mut d: Vec<char> = Vec::new();
    push_decimal(&mut d, n);
    assert(d@ =~= decimal(n as nat));
    if d.len() < width {
        push_repeat(out, '0', width - d.len());
    }
    push_chars(out, &d, 0, d.len());
    assert(d@.subrange(0, d.len() as int) =~= d@);
    assert(final(out)@ =~= old(out)@ + zero_padded(n as nat, width as nat)) by {
        if d.len() < width {
            assert(old(out)@ + Seq::new((width - d.len()) as nat, |_i: int| '0') + d@ =~= old(out)@
                + (Seq::new((width - d.len()) as nat, |_i: int| '0') + d@));
        }
    }
}

/// An ASCII decimal digit.
pub open spec fn is_digit(c: char) -> bool {
    '0' <= c <= '9'
}

/// The number written by the decimal digits `d`.
pub open spec fn digits_value(d: Seq<char>) -> nat
    decreases d.len(),
{
    if d.len() == 0 {
        0
    } else {
        digits_value(d.drop_last()) * 10 + ((d.last() as u32) - 48) as nat
    }
}

/// `10` to the power `n`.
pub open spec fn pow10(n: nat) -> nat
    decreases n,
{
    if n == 0 {
        1
    } else {
        10 * pow10((n - 1) as nat)
    }
}

/// Every character of `d` is an ASCII digit.
pub open spec fn all_digits(d: Seq<char>) -> bool {
    forall|i: int| 0 <= i < d.len() ==> is_digit(#[trigger] d[i])
}

/// The number written by a field `f` of a timestamp: one or more ASCII
/// digits, nothing else.
pub open spec fn parse_unsigned(f: Seq<char>) -> Option<nat> {
    if f.len() > 0 && all_digits(f) {
        Some(digits_value(f))
    } else {
        None
    }
}

/// `v[from..to]` parsed as an unsigned number, for texts of at most four
/// characters.
pub fn parse_small_unsigned(v: &Vec<char>, from: usize, to: usize) -> (r: Option<u32>)
    requires
        from <= to <= v.len(),
        to - from <= 4,
    ensures
        r is Some <==> parse_unsigned(v@.subrange(from as int, to as int)) is Some,
        r matches Some(x) ==> x == parse_unsigned(v@.subrange(from as int, to as int))->0,
        r matches Some(x) ==> x < pow10((to - from) as nat),
{
    let ghost f = v@.subrange(from as int, to as int);
    if from == to {
        return None;
    }
    let mut acc: u32 = 0;
    let mut i = from;
    assert(f.take(0) =~= Seq::<char>::empty());
    proof {
        reveal_with_fuel(pow10, 5);
    }
    while i < to
        invariant
            from <= i <= to <= v.len(),
            to - from <= 4,
            f == v@.subrange(from as int, to as int),
            f.len() > 0,
            forall|j: int| 0 <= j < i - from ==> is_digit(#[trigger] f[j]),
            acc == digits_value(f.take(i - from)),
            acc < pow10((i - from) as nat),
            pow10((i - from) as nat) <= 10000,
        decreases to - i,
    {
        let c = v[i];
        if !('0' <= c && c <= '9') {
            assert(!is_digit(f[i - from]));
            assert(parse_unsigned(f) is None);
            return None;
        }
        assert(f.take(i - from + 1).drop_last() =~= f.take(i - from));
        assert(f[i - from] == c);
        proof {
            assert(pow10((i - from + 1) as nat) == 10 * pow10((i - from) as nat));
            reveal_with_fuel(pow10, 5);
        }
        acc = acc * 10 + ((c as u32) - 48);
        i += 1;
    }
    assert(f.take(f.len() as int) =~= f);
    proof {
        reveal_with_fuel(pow10, 5);
    }
    Some(acc)
}

/// A run of `k` digits writes a number below `10^k`.
pub proof fn lemma_digits_value_bound(f: Seq<char>)
    requires
        all_digits(f),
    ensures
        digits_value(f) < pow10(f.len()),
    decreases f.len(),
{
    if f.len() > 0 {
        let p = f.drop_last();
        assert forall|i: int| 0 <= i < p.len() implies is_digit(#[trigger] p[i]) by {
            assert(p[i] == f[i]);
        }
        lemma_digits_value_bound(p);
        assert(is_digit(f[f.len() - 1]));
        let x = digits_value(p);
        let y = pow10(p.len());
        let c = ((f.last() as u32) - 48) as nat;
        assert(c < 10);
        assert(x * 10 + c < y * 10) by (nonlinear_arith)
            requires
                x < y,
                c < 10,
        ;
    }
}

/// Two runs of digits of one length that write the same number are equal.
pub proof fn lemma_digits_injective(a: Seq<char>, b: Seq<char>)
    requires
        all_digits(a),
        all_digits(b),
        a.len() == b.len(),
        digits_value(a) == digits_value(b),
    ensures
        a == b,
    decreases a.len(),
{
    if a.len() > 0 {
        let pa = a.drop_last();
        let pb = b.drop_last();
        assert forall|i: int| 0 <= i < pa.len() implies is_digit(#[trigger] pa[i]) by {
            assert(pa[i] == a[i]);
        }
        assert forall|i: int| 0 <= i < pb.len() implies is_digit(#[trigger] pb[i]) by {
            assert(pb[i] == b[i]);
        }
        assert(is_digit(a[a.len() - 1]));
        assert(is_digit(b[b.len() - 1]));
        let x = digits_value(pa);
        let y = digits_value(pb);
        let ca = ((a.last() as u32) - 48) as int;
        let cb = ((b.last() as u32) - 48) as int;
        assert(ca == cb && x == y) by (nonlinear_arith)
            requires
                x * 10 + ca == y * 10 + cb,
                0 <= ca < 10,
                0 <= cb < 10,
        ;
        lemma_digits_injective(pa, pb);
        assert(a.last() == b.last());
        assert(a =~= pa.push(a.last()));
        assert(b =~= pb.push(b.last()));
    }
}

/// Zero-padding the number written by a run of digits to the run's length
/// gives the run back.
pub proof fn lemma_zero_padded_digits(f: Seq<char>)
    requires
        all_digits(f),
        1 <= f.len() <= 4,
    ensures
        zero_padded(digits_value(f), f.len()) == f,
{
    let n = digits_value(f);
    lemma_digits_value_bound(f);
    reveal_with_fuel(pow10, 5);
    lemma_decimal_len(n);
    lemma_zero_padded(n, f.len());
    lemma_digits_injective(zero_padded(n, f.len()), f);
}

// ---------------------------------------------------------------------------
// ASCII case folding
// ---------------------------------------------------------------------------

/// `c.to_ascii_lowercase()`.
pub open spec fn ascii_lower(c: char) -> char {
    if 'A' <= c <= 'Z' {
        ((c as u32) + 32) as char
    } else {
        c
    }
}

/// `a.eq_ignore_ascii_case(b)` on character sequences.
pub open spec fn eq_ignore_ascii_case(a: Seq<char>, b: Seq<char>) -> bool {
    &&& a.len() == b.len()
    &&& forall|i: int| 0 <= i < a.len() ==> ascii_lower(#[trigger] a[i]) == ascii_lower(b[i])
}

/// Whether `a` and `b` are equal once ASCII letters are folded to lower case.
pub fn chars_eq_ignore_ascii_case(a: &Vec<char>, b: &Vec<char>) -> (r: bool)
    ensures
        r == eq_ignore_ascii_case(a@, b@),
{
    if a.len() != b.len() {
        return false;
    }
    let mut i: usize = 0;
    while i < a.len()
        invariant
            a.len() == b.len(),
            i <= a.len(),
            forall|j: int| 0 <= j < i ==> ascii_lower(#[trigger] a@[j]) == ascii_lower(b@[j]),
        decreases a.len() - i,
    {
        let x = a[i];
        let y = b[i];
        let xl = if 'A' <= x && x <= 'Z' {
            (x as u32) + 32
        } else {
            x as u32
        };
        let yl = if 'A' <= y && y <= 'Z' {
            (y as u32) + 32
        } else {
            y as u32
        };
        if xl != yl {
            assert(ascii_lower(a@[i as int]) != ascii_lower(b@[i as int]));
            return false;
        }
        i += 1;
    }
    true
}

} // verus!
