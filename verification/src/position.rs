//! Positions within a line: byte offsets (as the index stores them) against
//! UTF-16 columns (as LSP clients send them), and the string literal and the
//! identifier under a cursor.

use vstd::prelude::*;
use crate::text::{
    byte_len, chars_of, lemma_byte_len_prefix_mono, lemma_byte_len_push, str_byte_len, string_of,
    utf16_len, utf16_width, utf8_width,
};

verus! {

/// A position in a document: zero-based line and UTF-16 column.
#[derive(Debug, Clone, Copy, PartialEq, Eq, Structural, Default)]
pub struct Position {
    pub line: u32,
    pub character: u32,
}

/// A range in a document.
#[derive(Debug, Clone, Copy, PartialEq, Eq, Structural, Default)]
pub struct Range {
    pub start: Position,
    pub end: Position,
}

/// The UTF-16 units of the characters of `l` that start before byte `b`.
pub open spec fn units_before(l: Seq<char>, b: int) -> int
    decreases l.len(),
{
    if l.len() == 0 {
        0
    } else {
        units_before(l.drop_last(), b) + if byte_len(l.drop_last()) < b {
            utf16_width(l.last()) as int
        } else {
            0
        }
    }
}

/// The UTF-16 column of byte offset `b` (kept in a `u32`, wrapping).
pub open spec fn utf16_col_spec(l: Seq<char>, b: int) -> u32 {
    units_before(l, b) as u32
}

/// The first character position from `i` on whose UTF-16 column (kept in a
/// `u32`, wrapping) reaches `col`, or the length of `l`.
pub open spec fn char_at_col_from(l: Seq<char>, col: u32, i: int) -> int
    decreases l.len() - i,
{
    if i < 0 || i >= l.len() {
        l.len() as int
    } else if (utf16_len(l.take(i)) as u32) >= col {
        i
    } else {
        char_at_col_from(l, col, i + 1)
    }
}

/// The character position of UTF-16 column `col`.
pub open spec fn char_at_col(l: Seq<char>, col: u32) -> int {
    char_at_col_from(l, col, 0)
}

/// The byte offset of UTF-16 column `col`.
pub open spec fn byte_at_col(l: Seq<char>, col: u32) -> int {
    byte_len(l.take(char_at_col(l, col))) as int
}

proof fn lemma_utf16_le_utf8(c: char)
    ensures
        utf16_width(c) <= utf8_width(c),
{
}

proof fn lemma_units_before_step(l: Seq<char>, i: int, b: int)
    requires
        0 <= i < l.len(),
    ensures
        units_before(l.take(i + 1), b) == units_before(l.take(i), b) + if byte_len(l.take(i)) < b {
            utf16_width(l[i]) as int
        } else {
            0
        },
{
    assert(l.take(i + 1).drop_last() =~= l.take(i));
}

proof fn lemma_utf16_len_step(l: Seq<char>, i: int)
    requires
        0 <= i < l.len(),
    ensures
        utf16_len(l.take(i + 1)) == utf16_len(l.take(i)) + utf16_width(l[i]),
{
    assert(l.take(i + 1).drop_last() =~= l.take(i));
}

proof fn lemma_units_before_bound(l: Seq<char>, b: int)
    ensures
        0 <= units_before(l, b) <= byte_len(l),
    decreases l.len(),
{
    if l.len() > 0 {
        lemma_units_before_bound(l.drop_last(), b);
        assert(l =~= l.drop_last().push(l.last()));
        lemma_byte_len_push(l.drop_last(), l.last());
        lemma_utf16_le_utf8(l.last());
    }
}

proof fn lemma_utf16_len_bound(l: Seq<char>)
    ensures
        utf16_len(l) <= byte_len(l),
    decreases l.len(),
{
    if l.len() > 0 {
        lemma_utf16_len_bound(l.drop_last());
        assert(l =~= l.drop_last().push(l.last()));
        lemma_byte_len_push(l.drop_last(), l.last());
        lemma_utf16_le_utf8(l.last());
    }
}

proof fn lemma_units_before_all(l: Seq<char>, b: int)
    requires
        byte_len(l) <= b,
    ensures
        units_before(l, b) == utf16_len(l),
    decreases l.len(),
{
    if l.len() > 0 {
        let d = l.drop_last();
        assert(l =~= d.push(l.last()));
        lemma_byte_len_push(d, l.last());
        lemma_units_before_all(d, b);
    }
}

proof fn lemma_units_before_prefix(l: Seq<char>, k: int)
    requires
        0 <= k <= l.len(),
    ensures
        units_before(l, byte_len(l.take(k)) as int) == utf16_len(l.take(k)),
    decreases l.len(),
{
    let b = byte_len(l.take(k)) as int;
    if k == l.len() {
        assert(l.take(k) =~= l);
        lemma_units_before_all(l, b);
    } else {
        let d = l.drop_last();
        assert(d =~= l.take(l.len() - 1));
        lemma_byte_len_prefix_mono(l, k, l.len() - 1);
        assert(d.take(k) =~= l.take(k));
        lemma_units_before_prefix(d, k);
    }
}

proof fn lemma_utf16_prefix_mono(s: Seq<char>, i: int, j: int)
    requires
        0 <= i <= j <= s.len(),
    ensures
        utf16_len(s.take(i)) <= utf16_len(s.take(j)),
        i < j ==> utf16_len(s.take(i)) < utf16_len(s.take(j)),
    decreases j - i,
{
    if i < j {
        lemma_utf16_prefix_mono(s, i, j - 1);
        lemma_utf16_len_step(s, j - 1);
    }
}

proof fn lemma_char_at_col_prefix(l: Seq<char>, k: int, i: int)
    requires
        0 <= i <= k <= l.len(),
        utf16_len(l) <= u32::MAX,
    ensures
        char_at_col_from(l, utf16_len(l.take(k)) as u32, i) == k,
    decreases k - i,
{
    assert(l.take(l.len() as int) =~= l);
    lemma_utf16_prefix_mono(l, k, l.len() as int);
    if i < k {
        lemma_utf16_prefix_mono(l, i, k);
        lemma_char_at_col_prefix(l, k, i + 1);
    }
}

/// On a character boundary, byte offsets and UTF-16 columns convert into
/// each other without loss: a byte offset turned into a column and back is
/// the same offset, and a column turned into a byte offset and back is the
/// same column (for a line whose UTF-16 length fits in `u32`).
pub proof fn law_utf16_column_round_trip(l: Seq<char>, k: int)
    requires
        0 <= k <= l.len(),
        utf16_len(l) <= u32::MAX,
    ensures
        byte_at_col(l, utf16_col_spec(l, byte_len(l.take(k)) as int)) == byte_len(l.take(k)),
        utf16_col_spec(l, byte_at_col(l, utf16_len(l.take(k)) as u32)) == utf16_len(l.take(k)) as u32,
{
    lemma_units_before_prefix(l, k);
    lemma_char_at_col_prefix(l, k, 0);
}

proof fn lemma_units_before_mono(l: Seq<char>, b1: int, b2: int)
    requires
        b1 <= b2,
    ensures
        units_before(l, b1) <= units_before(l, b2) <= utf16_len(l),
    decreases l.len(),
{
    if l.len() > 0 {
        lemma_units_before_mono(l.drop_last(), b1, b2);
    }
}

proof fn lemma_char_at_col_mono(l: Seq<char>, c1: u32, c2: u32, i: int)
    requires
        0 <= i <= l.len(),
        c1 <= c2,
        utf16_len(l) <= u32::MAX,
    ensures
        i <= char_at_col_from(l, c1, i) <= char_at_col_from(l, c2, i) <= l.len(),
    decreases l.len() - i,
{
    if i < l.len() {
        assert(l.take(l.len() as int) =~= l);
        lemma_utf16_prefix_mono(l, i, l.len() as int);
        lemma_char_at_col_mono(l, c1, c2, i + 1);
        lemma_char_at_col_mono(l, c2, c2, i + 1);
    }
}

proof fn lemma_char_at_col_least(l: Seq<char>, col: u32, i: int)
    requires
        0 <= i <= l.len(),
    ensures
        i <= char_at_col_from(l, col, i) <= l.len(),
        forall|j: int| i <= j < char_at_col_from(l, col, i) ==> (#[trigger] utf16_len(l.take(j)) as u32) < col,
        char_at_col_from(l, col, i) < l.len() ==> (utf16_len(l.take(char_at_col_from(l, col, i))) as u32) >= col,
    decreases l.len() - i,
{
    if i < l.len() && (utf16_len(l.take(i)) as u32) < col {
        lemma_char_at_col_least(l, col, i + 1);
    }
}

/// The byte offset of a UTF-16 column is the least character boundary whose
/// column reaches the one asked for, or the end of the line when none does:
/// a column inside a character (such as inside a surrogate pair) moves on to
/// the next boundary (for a line whose UTF-16 length fits in `u32`).
pub proof fn law_utf16_col_is_least_boundary(l: Seq<char>, col: u32)
    requires
        utf16_len(l) <= u32::MAX,
    ensures
        ({
            let k = char_at_col(l, col);
            &&& 0 <= k <= l.len()
            &&& byte_at_col(l, col) == byte_len(l.take(k))
            &&& forall|j: int|
                0 <= j < k ==> utf16_col_spec(l, #[trigger] byte_len(l.take(j)) as int) < col
            &&& k < l.len() ==> utf16_col_spec(l, byte_len(l.take(k)) as int) >= col
        }),
{
    let k = char_at_col(l, col);
    lemma_char_at_col_least(l, col, 0);
    assert(l.take(l.len() as int) =~= l);
    assert forall|j: int| 0 <= j < k implies utf16_col_spec(l, #[trigger] byte_len(l.take(j)) as int) < col by {
        lemma_units_before_prefix(l, j);
        lemma_utf16_prefix_mono(l, j, l.len() as int);
        assert(utf16_len(l.take(j)) as u32 == utf16_len(l.take(j)));
    }
    if k < l.len() {
        lemma_units_before_prefix(l, k);
        lemma_utf16_prefix_mono(l, k, l.len() as int);
    }
}

/// UTF-16 columns grow with byte offsets and never pass the line's UTF-16
/// length; the byte offsets of columns grow with the columns and never pass
/// the line's byte length (for a line whose UTF-16 length fits in `u32`).
pub proof fn law_utf16_columns_monotone(l: Seq<char>, b1: int, b2: int, c1: u32, c2: u32)
    requires
        b1 <= b2,
        c1 <= c2,
        utf16_len(l) <= u32::MAX,
    ensures
        utf16_col_spec(l, b1) <= utf16_col_spec(l, b2) <= utf16_len(l),
        byte_at_col(l, c1) <= byte_at_col(l, c2) <= byte_len(l),
{
    lemma_units_before_mono(l, b1, b2);
    lemma_units_before_bound(l, b1);
    lemma_char_at_col_mono(l, c1, c2, 0);
    lemma_byte_len_prefix_mono(l, char_at_col(l, c1), char_at_col(l, c2));
    lemma_byte_len_prefix_mono(l, char_at_col(l, c2), l.len() as int);
    assert(l.take(l.len() as int) =~= l);
}

/// The UTF-16 column of byte offset `byte_idx` in `line`: the code units of
/// the characters that start before it. Stale offsets need not fall on a
/// character boundary.
pub fn byte_to_utf16_col(line: &str, byte_idx: usize) -> (r: u32)
    ensures
        r == utf16_col_spec(line@, byte_idx as int),
{
    let total = str_byte_len(line);
    let l = chars_of(line);
    let mut units: usize = 0;
    let mut offset: usize = 0;
    let mut i: usize = 0;
    while i < l.len()
        invariant
            i <= l@.len(),
            l@ == line@,
            byte_len(l@) <= usize::MAX,
            offset == byte_len(l@.take(i as int)),
            units == units_before(l@.take(i as int), byte_idx as int),
            units <= offset,
        decreases l@.len() - i,
    {
        proof {
            lemma_units_before_step(l@, i as int, byte_idx as int);
            assert(l@.take(i + 1) =~= l@.take(i as int).push(l@[i as int]));
            lemma_byte_len_push(l@.take(i as int), l@[i as int]);
            lemma_byte_len_prefix_mono(l@, i + 1, l@.len() as int);
            assert(l@.take(l@.len() as int) =~= l@);
            lemma_utf16_le_utf8(l@[i as int]);
        }
        if offset < byte_idx {
            units = units + crate::text::char_utf16_width(l[i]) as usize;
        }
        offset = offset + crate::text::char_utf8_width(l[i]);
        i += 1;
    }
    proof {
        assert(l@.take(l@.len() as int) =~= l@);
    }
    units as u32
}

/// The character position of UTF-16 column `col` in `l`.
pub fn char_at_utf16_col(l: &Vec<char>, col: u32) -> (r: usize)
    requires
        byte_len(l@) <= usize::MAX,
    ensures
        r == char_at_col(l@, col),
        r <= l@.len(),
{
    let mut units: usize = 0;
    let mut i: usize = 0;
    while i < l.len()
        invariant
            i <= l@.len(),
            byte_len(l@) <= usize::MAX,
            units == utf16_len(l@.take(i as int)),
            char_at_col_from(l@, col, i as int) == char_at_col_from(l@, col, 0),
        decreases l@.len() - i,
    {
        if (units as u32) >= col {
            return i;
        }
        proof {
            lemma_utf16_len_step(l@, i as int);
            lemma_utf16_len_bound(l@.take(i + 1));
            lemma_byte_len_prefix_mono(l@, i + 1, l@.len() as int);
            assert(l@.take(l@.len() as int) =~= l@);
        }
        units = units + crate::text::char_utf16_width(l[i]) as usize;
        i += 1;
    }
    i
}

/// The byte offset of UTF-16 column `utf16_col` in `line`, or the byte length
/// of the line when the column lies beyond it.
pub fn utf16_col_to_byte(line: &str, utf16_col: u32) -> (r: usize)
    ensures
        r == byte_at_col(line@, utf16_col),
{
    let total = str_byte_len(line);
    let l = chars_of(line);
    let i = char_at_utf16_col(&l, utf16_col);
    let mut off: usize = 0;
    let mut k: usize = 0;
    while k < i
        invariant
            k <= i <= l@.len(),
            byte_len(l@) <= usize::MAX,
            off == byte_len(l@.take(k as int)),
        decreases i - k,
    {
        proof {
            assert(l@.take(k + 1) =~= l@.take(k as int).push(l@[k as int]));
            lemma_byte_len_push(l@.take(k as int), l@[k as int]);
            lemma_byte_len_prefix_mono(l@, k + 1, l@.len() as int);
            assert(l@.take(l@.len() as int) =~= l@);
        }
        off = off + crate::text::char_utf8_width(l[k]);
        k += 1;
    }
    off
}

/// The range of byte span `span` on line `line_no`, whose text is `line`.
pub open spec fn span_range_spec(line_no: u32, line: Seq<char>, span: (usize, usize)) -> Range {
    Range {
        start: Position { line: line_no, character: utf16_col_spec(line, span.0 as int) },
        end: Position { line: line_no, character: utf16_col_spec(line, span.1 as int) },
    }
}

pub fn span_to_range(line_no: u32, line: &str, span: (usize, usize)) -> (r: Range)
    ensures
        r == span_range_spec(line_no, line@, span),
{
    Range {
        start: Position { line: line_no, character: byte_to_utf16_col(line, span.0) },
        end: Position { line: line_no, character: byte_to_utf16_col(line, span.1) },
    }
}

/// The first complete double-quoted string from character `i` on, scanning
/// left to right, whose content (as a byte range, quotes excluded, ends
/// included) holds byte offset `b`; `None` at the first unterminated string.
pub open spec fn quoted_at_from(l: Seq<char>, b: int, i: int) -> Option<(int, int)>
    decreases l.len() - i,
{
    if i < 0 || i >= l.len() {
        None
    } else if l[i] != '"' {
        quoted_at_from(l, b, i + 1)
    } else {
        let e = crate::grammar::find_quote(l, i + 1);
        if e >= l.len() {
            None
        } else if byte_len(l.take(i + 1)) <= b && b <= byte_len(l.take(e)) {
            Some((i + 1, e))
        } else {
            proof {
                lemma_find_quote_props(l, i + 1);
            }
            quoted_at_from(l, b, e + 1)
        }
    }
}

/// The double-quoted string literal containing the cursor: its content (without
/// the quotes) and its byte span within the line.
pub open spec fn string_at_spec(l: Seq<char>, col: u32) -> Option<(Seq<char>, (usize, usize))> {
    match quoted_at_from(l, byte_at_col(l, col), 0) {
        Some((s, e)) => Some(
            (l.subrange(s, e), (byte_len(l.take(s)) as usize, byte_len(l.take(e)) as usize)),
        ),
        None => None,
    }
}

pub proof fn lemma_find_quote_props(l: Seq<char>, p: int)
    requires
        0 <= p <= l.len(),
    ensures
        p <= crate::grammar::find_quote(l, p) <= l.len(),
        crate::grammar::find_quote(l, p) < l.len() ==> l[crate::grammar::find_quote(l, p)] == '"',
    decreases l.len() - p,
{
    if p < l.len() && l[p] != '"' {
        lemma_find_quote_props(l, p + 1);
    }
}

/// The number of `"` among the first `i` characters of `l`.
pub open spec fn quotes_before(l: Seq<char>, i: int) -> nat
    decreases i,
{
    if i <= 0 || i > l.len() {
        0
    } else {
        quotes_before(l, i - 1) + if l[i - 1] == '"' {
            1nat
        } else {
            0nat
        }
    }
}

/// The characters `[s, e)` of `l` are the inside of a pair of quotes: the
/// `"` at `s - 1` opens a pair (an even number of quotes stands before it) and
/// the next `"`, at `e`, closes it.
pub open spec fn quote_pair(l: Seq<char>, s: int, e: int) -> bool {
    &&& 1 <= s <= e < l.len()
    &&& l[s - 1] == '"'
    &&& l[e] == '"'
    &&& forall|j: int| s <= j < e ==> #[trigger] l[j] != '"'
    &&& quotes_before(l, s - 1) % 2 == 0
}

proof fn lemma_quotes_flat(l: Seq<char>, a: int, b: int)
    requires
        0 <= a <= b <= l.len(),
        forall|j: int| a <= j < b ==> #[trigger] l[j] != '"',
    ensures
        quotes_before(l, b) == quotes_before(l, a),
    decreases b - a,
{
    if a < b {
        lemma_quotes_flat(l, a, b - 1);
    }
}

proof fn lemma_quoted_at_from(l: Seq<char>, b: int, i: int)
    requires
        0 <= i <= l.len(),
        quotes_before(l, i) % 2 == 0,
    ensures
        quoted_at_from(l, b, i) matches Some((s, e)) ==> i < s && quote_pair(l, s, e) && byte_len(l.take(s)) <= b
            <= byte_len(l.take(e)),
        quoted_at_from(l, b, i) is None ==> forall|s: int, e: int|
            #[trigger] quote_pair(l, s, e) && i < s ==> !(byte_len(l.take(s)) <= b <= byte_len(l.take(e))),
    decreases l.len() - i,
{
    if i < l.len() {
        if l[i] != '"' {
            lemma_quoted_at_from(l, b, i + 1);
            assert forall|s: int, e: int| #[trigger] quote_pair(l, s, e) && i < s implies i + 1 < s by {}
        } else {
            crate::grammar::lemma_find_quote_all(l, i + 1);
            let e = crate::grammar::find_quote(l, i + 1);
            if e >= l.len() {
                assert forall|s2: int, e2: int| #[trigger] quote_pair(l, s2, e2) && i < s2 implies false by {
                    if s2 - 1 > i {
                        assert(l[s2 - 1] != '"');
                    } else {
                        assert(l[e2] != '"');
                    }
                }
            } else if byte_len(l.take(i + 1)) <= b && b <= byte_len(l.take(e)) {
                assert(quote_pair(l, i + 1, e));
            } else {
                lemma_quotes_flat(l, i + 1, e);
                assert(quotes_before(l, e + 1) == quotes_before(l, i) + 2);
                lemma_quoted_at_from(l, b, e + 1);
                assert(quotes_before(l, i + 1) == quotes_before(l, i) + 1);
                assert(quotes_before(l, e) == quotes_before(l, i) + 1);
                assert(quoted_at_from(l, b, i) == quoted_at_from(l, b, e + 1));
                if quoted_at_from(l, b, e + 1) is None {
                    assert forall|s2: int, e2: int| #[trigger] quote_pair(l, s2, e2) && i < s2 implies !(byte_len(l.take(s2))
                        <= b <= byte_len(l.take(e2))) by {
                        if s2 - 1 == i {
                            if e2 < e {
                                assert(l[e2] != '"');
                            } else if e2 > e {
                                assert(s2 <= e < e2);
                                assert(l[e] != '"');
                            }
                            assert(e2 == e);
                        } else if s2 - 1 < e {
                            assert(i + 1 <= s2 - 1);
                            assert(l[s2 - 1] != '"');
                        } else if s2 - 1 == e {
                            assert(quotes_before(l, s2 - 1) % 2 == 0);
                            assert(false);
                        } else {
                            assert(e + 1 < s2);
                        }
                    }
                }
            }
        }
    }
}

/// The string under a cursor at byte offset `b` (that of its UTF-16 column)
/// is the inside of the pair of quotes whose span holds `b`, pairing the
/// quotes of the line left to right; there is none when no pair holds `b`
/// (a last unpaired quote opens no string).
pub proof fn law_string_at(l: Seq<char>, col: u32)
    ensures
        ({
            let b = byte_at_col(l, col);
            &&& string_at_spec(l, col) matches Some((c, span)) ==> exists|s: int, e: int|
                #[trigger] quote_pair(l, s, e) && byte_len(l.take(s)) <= b <= byte_len(l.take(e)) && c == l.subrange(s, e)
                    && span == (byte_len(l.take(s)) as usize, byte_len(l.take(e)) as usize)
            &&& string_at_spec(l, col) is None ==> forall|s: int, e: int|
                #[trigger] quote_pair(l, s, e) ==> !(byte_len(l.take(s)) <= b <= byte_len(l.take(e)))
        }),
{
    lemma_quoted_at_from(l, byte_at_col(l, col), 0);
}

/// Byte offset of each character position of `l`.
fn offsets_of(l: &Vec<char>) -> (r: Vec<usize>)
    requires
        byte_len(l@) <= usize::MAX,
    ensures
        r@.len() == l@.len() + 1,
        forall|i: int| 0 <= i <= l@.len() ==> #[trigger] r@[i] == byte_len(l@.take(i)),
{
    let mut r: Vec<usize> = Vec::new();
    r.push(0);
    proof {
        assert(l@.take(0) =~= Seq::<char>::empty());
    }
    let mut acc: usize = 0;
    let mut i: usize = 0;
    while i < l.len()
        invariant
            i <= l@.len(),
            byte_len(l@) <= usize::MAX,
            r@.len() == i + 1,
            acc == byte_len(l@.take(i as int)),
            forall|j: int| 0 <= j <= i ==> #[trigger] r@[j] == byte_len(l@.take(j)),
        decreases l@.len() - i,
    {
        proof {
            assert(l@.take(i + 1) =~= l@.take(i as int).push(l@[i as int]));
            lemma_byte_len_push(l@.take(i as int), l@[i as int]);
            lemma_byte_len_prefix_mono(l@, i + 1, l@.len() as int);
            assert(l@.take(l@.len() as int) =~= l@);
        }
        acc = acc + crate::text::char_utf8_width(l[i]);
        r.push(acc);
        i += 1;
    }
    r
}

/// The double-quoted string literal containing the cursor, if any.
/// Returns the content (without the quotes) and its byte span within the line.
pub fn string_at(line: &str, utf16_col: u32) -> (r: Option<(String, (usize, usize))>)
    ensures
        r matches Some((s, span)) ==> string_at_spec(line@, utf16_col) == Some((s@, span)),
        r is None ==> string_at_spec(line@, utf16_col) is None,
{
    let total = str_byte_len(line);
    let l = chars_of(line);
    let offs = offsets_of(&l);
    let c = char_at_utf16_col(&l, utf16_col);
    let b = offs[c];
    let mut i: usize = 0;
    while i < l.len()
        invariant
            i <= l@.len(),
            l@ == line@,
            b == byte_at_col(l@, utf16_col),
            offs@.len() == l@.len() + 1,
            forall|j: int| 0 <= j <= l@.len() ==> #[trigger] offs@[j] == byte_len(l@.take(j)),
            quoted_at_from(l@, b as int, i as int) == quoted_at_from(l@, b as int, 0),
        decreases l@.len() - i,
    {
        if l[i] != '"' {
            i += 1;
            continue;
        }
        let start = i + 1;
        let mut end = start;
        while end < l.len() && l[end] != '"'
            invariant
                start <= end <= l@.len(),
                crate::grammar::find_quote(l@, end as int) == crate::grammar::find_quote(
                    l@,
                    start as int,
                ),
            decreases l@.len() - end,
        {
            end += 1;
        }
        if end >= l.len() {
            return None;
        }
        if b >= offs[start] && b <= offs[end] {
            let s = string_of(&l, start, end);
            return Some((s, (offs[start], offs[end])));
        }
        i = end + 1;
    }
    None
}

/// `[A-Za-z0-9_]`, the bytes of an identifier.
pub open spec fn is_ident_char(c: char) -> bool {
    ('0' <= c && c <= '9') || ('a' <= c && c <= 'z') || ('A' <= c && c <= 'Z') || c == '_'
}

fn ident_char(c: char) -> (r: bool)
    ensures
        r == is_ident_char(c),
{
    (c >= '0' && c <= '9') || (c >= 'a' && c <= 'z') || (c >= 'A' && c <= 'Z') || c == '_'
}

/// Start of the identifier characters that end at position `p`.
pub open spec fn ident_start(l: Seq<char>, p: int) -> int
    decreases p,
{
    if 0 < p <= l.len() && is_ident_char(l[p - 1]) {
        ident_start(l, p - 1)
    } else {
        p
    }
}

/// End of the identifier characters that start at position `p`.
pub open spec fn ident_end(l: Seq<char>, p: int) -> int
    decreases l.len() - p,
{
    if 0 <= p < l.len() && is_ident_char(l[p]) {
        ident_end(l, p + 1)
    } else {
        p
    }
}

/// The identifier under the cursor (character range), and the range of the
/// qualifier before a `.` right before it, if any.
pub open spec fn word_at_range(l: Seq<char>, col: u32) -> Option<((int, int), Option<(int, int)>)> {
    let p = char_at_col(l, col);
    let s = ident_start(l, p);
    let e = ident_end(l, s);
    if s == e {
        None
    } else if s > 0 && l[s - 1] == '.' {
        let qs = ident_start(l, s - 1);
        Some(((s, e), if qs < s - 1 { Some((qs, s - 1)) } else { None }))
    } else {
        Some(((s, e), None))
    }
}

pub open spec fn word_at_spec(l: Seq<char>, col: u32) -> Option<(Seq<char>, Option<Seq<char>>)> {
    match word_at_range(l, col) {
        Some(((s, e), q)) => Some(
            (
                l.subrange(s, e),
                match q {
                    Some((a, b)) => Some(l.subrange(a, b)),
                    None => None,
                },
            ),
        ),
        None => None,
    }
}

proof fn lemma_ident_start(l: Seq<char>, p: int)
    requires
        0 <= p <= l.len(),
    ensures
        0 <= ident_start(l, p) <= p,
        forall|j: int| ident_start(l, p) <= j < p ==> is_ident_char(#[trigger] l[j]),
        ident_start(l, p) == 0 || !is_ident_char(l[ident_start(l, p) - 1]),
    decreases p,
{
    if 0 < p && is_ident_char(l[p - 1]) {
        lemma_ident_start(l, p - 1);
    }
}

proof fn lemma_ident_end(l: Seq<char>, p: int, q: int)
    requires
        0 <= p <= q <= l.len(),
        forall|j: int| p <= j < q ==> is_ident_char(#[trigger] l[j]),
    ensures
        q <= ident_end(l, p) <= l.len(),
        forall|j: int| p <= j < ident_end(l, p) ==> is_ident_char(#[trigger] l[j]),
        ident_end(l, p) == l.len() || !is_ident_char(l[ident_end(l, p)]),
    decreases l.len() - p,
{
    if p < l.len() && is_ident_char(l[p]) {
        if p < q {
            lemma_ident_end(l, p + 1, q);
        } else {
            lemma_ident_end(l, p + 1, p + 1);
        }
    }
}

proof fn lemma_char_at_col_bound(l: Seq<char>, col: u32, i: int)
    requires
        0 <= i <= l.len(),
    ensures
        i <= char_at_col_from(l, col, i) <= l.len(),
    decreases l.len() - i,
{
    if i < l.len() {
        lemma_char_at_col_bound(l, col, i + 1);
    }
}

/// `[s, e)` is a maximal run of identifier characters of `l`.
pub open spec fn ident_run(l: Seq<char>, s: int, e: int) -> bool {
    &&& 0 <= s <= e <= l.len()
    &&& forall|j: int| s <= j < e ==> is_ident_char(#[trigger] l[j])
    &&& s == 0 || !is_ident_char(l[s - 1])
    &&& e == l.len() || !is_ident_char(l[e])
}

/// The word under a cursor at character `p` (the position of its UTF-16
/// column) exists exactly when the character before or at `p` is an
/// identifier character; it is then the maximal run of identifier characters
/// around `p`, and its qualifier is the maximal nonempty run right before a
/// `.` that directly precedes the word, if there is one.
pub proof fn law_word_at(l: Seq<char>, col: u32)
    ensures
        ({
            let p = char_at_col(l, col);
            &&& word_at_spec(l, col) is Some <==> ((0 < p <= l.len() && is_ident_char(l[p - 1])) || (0 <= p < l.len()
                && is_ident_char(l[p])))
            &&& word_at_spec(l, col) matches Some((w, q)) ==> exists|s: int, e: int|
                #[trigger] ident_run(l, s, e) && s <= p <= e && s < e && w == l.subrange(s, e) && (q is Some <==> (s >= 2
                    && l[s - 1] == '.' && is_ident_char(l[s - 2]))) && (q matches Some(x) ==> exists|t: int|
                    #[trigger] ident_run(l, t, s - 1) && t < s - 1 && x == l.subrange(t, s - 1))
        }),
{
    let p = char_at_col(l, col);
    lemma_char_at_col_bound(l, col, 0);
    lemma_ident_start(l, p);
    let s = ident_start(l, p);
    lemma_ident_end(l, s, p);
    let e = ident_end(l, s);
    assert(ident_run(l, s, e));
    if s < e && s > 0 && l[s - 1] == '.' {
        lemma_ident_start(l, s - 1);
        let qs = ident_start(l, s - 1);
        lemma_ident_end(l, qs, s - 1);
        assert(ident_end(l, qs) == s - 1);
        assert(ident_run(l, qs, s - 1));
        if qs < s - 1 {
            assert(is_ident_char(l[s - 2]));
        } else {
            assert(!(s >= 2 && is_ident_char(l[s - 2])));
        }
    }
}

fn ident_start_exec(l: &Vec<char>, p: usize) -> (r: usize)
    requires
        p <= l@.len(),
    ensures
        r == ident_start(l@, p as int),
        r <= p,
{
    let mut s = p;
    while s > 0 && ident_char(l[s - 1])
        invariant
            s <= p <= l@.len(),
            ident_start(l@, s as int) == ident_start(l@, p as int),
        decreases s,
    {
        s -= 1;
    }
    s
}

fn ident_end_exec(l: &Vec<char>, p: usize) -> (r: usize)
    requires
        p <= l@.len(),
    ensures
        r == ident_end(l@, p as int),
        p <= r <= l@.len(),
{
    let mut e = p;
    while e < l.len() && ident_char(l[e])
        invariant
            p <= e <= l@.len(),
            ident_end(l@, e as int) == ident_end(l@, p as int),
        decreases l@.len() - e,
    {
        e += 1;
    }
    e
}

/// The identifier under the cursor plus, when it is a `qualifier.member`
/// access, the qualifier before the dot.
pub fn word_at(line: &str, utf16_col: u32) -> (r: Option<(String, Option<String>)>)
    ensures
        r matches Some((w, q)) ==> word_at_spec(line@, utf16_col) == Some(
            (
                w@,
                match q {
                    Some(x) => Some(x@),
                    None => None,
                },
            ),
        ),
        r is None ==> word_at_spec(line@, utf16_col) is None,
{
    let total = str_byte_len(line);
    let l = chars_of(line);
    let p = char_at_utf16_col(&l, utf16_col);
    let s = ident_start_exec(&l, p);
    let e = ident_end_exec(&l, s);
    if s == e {
        return None;
    }
    let word = string_of(&l, s, e);
    if s > 0 && l[s - 1] == '.' {
        let qs = ident_start_exec(&l, s - 1);
        if qs < s - 1 {
            let q = string_of(&l, qs, s - 1);
            return Some((word, Some(q)));
        }
        return Some((word, None));
    }
    Some((word, None))
}

} // verus!
