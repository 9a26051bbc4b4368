//! The line grammar of Classic ASP sources: `<!--#include file|virtual="..."-->`
//! directives, and `Sub` / `Function` / `Property Get|Let|Set` / `Class`
//! definitions. Matching is ASCII-case-insensitive in the way of a Unicode
//! regular expression with the `i` flag (so `k` also matches KELVIN SIGN and
//! `s` also matches LONG S), whitespace is Unicode `White_Space`, and the
//! characters after the first of a name are Unicode word characters.

use vstd::prelude::*;
use crate::text::{ascii_lower, ascii_lower_seq, eq_ignore_ascii_case, is_white_space, lower_char, white_space};
use crate::parse::SymbolKind;

verus! {

/// Whether `c` is a Unicode word character (`\w` of a Unicode regular
/// expression) outside ASCII: `Alphabetic`, `Join_Control`, `Decimal_Number`,
/// `Mark` or `Connector_Punctuation`.
pub uninterp spec fn unicode_word_character(c: char) -> bool;

pub open spec fn is_ascii_word(c: char) -> bool {
    ('0' <= c && c <= '9') || ('a' <= c && c <= 'z') || ('A' <= c && c <= 'Z') || c == '_'
}

/// `\w`: ASCII letters, digits and `_`, and the Unicode word characters.
pub open spec fn is_word_char(c: char) -> bool {
    if (c as u32) < 0x80 {
        is_ascii_word(c)
    } else {
        unicode_word_character(c)
    }
}

/// `regex_syntax::is_word_character`, the class behind `\w`. Its source answers
/// ASCII characters from `[0-9A-Za-z_]` and the others from the Unicode
/// `perl_word` table, which the name `unicode_word_character` stands for.
#[verifier::external_body]
fn word_character(c: char) -> (r: bool)
    ensures
        (c as u32) < 0x80 ==> r == is_ascii_word(c),
        (c as u32) >= 0x80 ==> r == unicode_word_character(c),
{
    regex_syntax::is_word_character(c)
}

/// `c` matches the lowercase pattern character `x` under simple case folding.
pub open spec fn ci_match(c: char, x: char) -> bool {
    ||| c == x
    ||| ('a' <= x && x <= 'z' && (c as u32) + 32 == (x as u32))
    ||| (x == 'k' && c == '\u{212a}')
    ||| (x == 's' && c == '\u{17f}')
}

fn ci_char(c: char, x: char) -> (r: bool)
    ensures
        r == ci_match(c, x),
{
    c == x || (x >= 'a' && x <= 'z' && (c as u32) + 32 == (x as u32)) || (x == 'k' && c
        == '\u{212a}') || (x == 's' && c == '\u{17f}')
}

/// `[a-zA-Z_]` under case folding.
pub open spec fn is_name_start(c: char) -> bool {
    ('a' <= c && c <= 'z') || ('A' <= c && c <= 'Z') || c == '_' || c == '\u{212a}' || c
        == '\u{17f}'
}

fn name_start(c: char) -> (r: bool)
    ensures
        r == is_name_start(c),
{
    (c >= 'a' && c <= 'z') || (c >= 'A' && c <= 'Z') || c == '_' || c == '\u{212a}' || c
        == '\u{17f}'
}

/// `w` occurs case-insensitively in `l` at `p`.
pub open spec fn ci_at(l: Seq<char>, p: int, w: Seq<char>) -> bool {
    &&& 0 <= p
    &&& p + w.len() <= l.len()
    &&& forall|k: int| 0 <= k < w.len() ==> ci_match(#[trigger] l[p + k], w[k])
}

/// `w` occurs exactly in `l` at `p`.
pub open spec fn lit_at(l: Seq<char>, p: int, w: Seq<char>) -> bool {
    &&& 0 <= p
    &&& p + w.len() <= l.len()
    &&& forall|k: int| 0 <= k < w.len() ==> #[trigger] l[p + k] == w[k]
}

fn match_ci(l: &Vec<char>, p: usize, w: &[char]) -> (r: bool)
    ensures
        r == ci_at(l@, p as int, w@),
{
    if p > l.len() || w.len() > l.len() - p {
        return false;
    }
    let mut k: usize = 0;
    while k < w.len()
        invariant
            p + w@.len() <= l@.len() <= usize::MAX,
            k <= w@.len(),
            forall|j: int| 0 <= j < k ==> ci_match(#[trigger] l@[p + j], w@[j]),
        decreases w@.len() - k,
    {
        if !ci_char(l[p + k], w[k]) {
            return false;
        }
        k += 1;
    }
    true
}

fn match_lit(l: &Vec<char>, p: usize, w: &[char]) -> (r: bool)
    ensures
        r == lit_at(l@, p as int, w@),
{
    if p > l.len() || w.len() > l.len() - p {
        return false;
    }
    let mut k: usize = 0;
    while k < w.len()
        invariant
            p + w@.len() <= l@.len() <= usize::MAX,
            k <= w@.len(),
            forall|j: int| 0 <= j < k ==> #[trigger] l@[p + j] == w@[j],
        decreases w@.len() - k,
    {
        if l[p + k] != w[k] {
            return false;
        }
        k += 1;
    }
    true
}

pub open spec fn open_comment() -> Seq<char> {
    seq!['<', '!', '-', '-']
}

pub open spec fn close_comment() -> Seq<char> {
    seq!['-', '-', '>']
}

pub open spec fn open_delimiter() -> Seq<char> {
    seq!['<', '%']
}

pub open spec fn kw_include() -> Seq<char> {
    seq!['i', 'n', 'c', 'l', 'u', 'd', 'e']
}

pub open spec fn kw_file() -> Seq<char> {
    seq!['f', 'i', 'l', 'e']
}

pub open spec fn kw_virtual() -> Seq<char> {
    seq!['v', 'i', 'r', 't', 'u', 'a', 'l']
}

pub open spec fn kw_public() -> Seq<char> {
    seq!['p', 'u', 'b', 'l', 'i', 'c']
}

pub open spec fn kw_private() -> Seq<char> {
    seq!['p', 'r', 'i', 'v', 'a', 't', 'e']
}

pub open spec fn kw_default() -> Seq<char> {
    seq!['d', 'e', 'f', 'a', 'u', 'l', 't']
}

pub open spec fn kw_sub() -> Seq<char> {
    seq!['s', 'u', 'b']
}

pub open spec fn kw_function() -> Seq<char> {
    seq!['f', 'u', 'n', 'c', 't', 'i', 'o', 'n']
}

pub open spec fn kw_property() -> Seq<char> {
    seq!['p', 'r', 'o', 'p', 'e', 'r', 't', 'y']
}

pub open spec fn kw_get() -> Seq<char> {
    seq!['g', 'e', 't']
}

pub open spec fn kw_let() -> Seq<char> {
    seq!['l', 'e', 't']
}

pub open spec fn kw_set() -> Seq<char> {
    seq!['s', 'e', 't']
}

pub open spec fn kw_class() -> Seq<char> {
    seq!['c', 'l', 'a', 's', 's']
}

/// End of the run of whitespace starting at `p` (`\s*`).
pub open spec fn skip_ws(l: Seq<char>, p: int) -> int
    decreases l.len() - p,
{
    if 0 <= p < l.len() && is_white_space(l[p]) {
        skip_ws(l, p + 1)
    } else {
        p
    }
}

/// End of the run of word characters starting at `p` (`\w*`).
pub open spec fn skip_word(l: Seq<char>, p: int) -> int
    decreases l.len() - p,
{
    if 0 <= p < l.len() && is_word_char(l[p]) {
        skip_word(l, p + 1)
    } else {
        p
    }
}

/// Position of the first `"` at or after `p`, or the length of `l`.
pub open spec fn find_quote(l: Seq<char>, p: int) -> int
    decreases l.len() - p,
{
    if 0 <= p < l.len() {
        if l[p] == '"' {
            p
        } else {
            find_quote(l, p + 1)
        }
    } else {
        l.len() as int
    }
}

/// `\w*` from `p` covers only word characters and stops at one that is not.
pub proof fn lemma_skip_word_run(l: Seq<char>, p: int)
    requires
        0 <= p <= l.len(),
    ensures
        p <= skip_word(l, p) <= l.len(),
        forall|j: int| p <= j < skip_word(l, p) ==> is_word_char(#[trigger] l[j]),
        skip_word(l, p) < l.len() ==> !is_word_char(l[skip_word(l, p)]),
    decreases l.len() - p,
{
    if p < l.len() && is_word_char(l[p]) {
        lemma_skip_word_run(l, p + 1);
    }
}

/// The name a name match gives is a name-start character followed by word
/// characters, the longest such run.
pub proof fn lemma_name_at(l: Seq<char>, p: int)
    ensures
        name_at(l, p) matches Some((s, e)) ==> {
            &&& 0 <= s < e <= l.len()
            &&& s == p
            &&& is_name_start(l[s])
            &&& forall|j: int| s < j < e ==> is_word_char(#[trigger] l[j])
            &&& e < l.len() ==> !is_word_char(l[e])
        },
{
    if 0 <= p < l.len() && is_name_start(l[p]) {
        lemma_skip_word_run(l, p + 1);
    }
}

/// The name a definition match gives: a name-start character followed by
/// the longest run of word characters.
pub proof fn lemma_definition_name(l: Seq<char>)
    ensures
        definition_match(l) matches Some((k, s, e)) ==> {
            &&& 0 <= s < e <= l.len()
            &&& is_name_start(l[s])
            &&& forall|j: int| s < j < e ==> is_word_char(#[trigger] l[j])
            &&& e < l.len() ==> !is_word_char(l[e])
        },
{
    let p = skip_modifiers(l, after_prefix(l));
    lemma_name_at(l, skip_ws(l, p + 3));
    lemma_name_at(l, skip_ws(l, p + 8));
    let q = skip_ws(l, p + 8);
    lemma_name_at(l, skip_ws(l, q + 3));
    lemma_name_at(l, skip_ws(l, after_prefix(l) + 5));
}

pub proof fn lemma_skip_ws_bounds(l: Seq<char>, p: int)
    requires
        0 <= p <= l.len(),
    ensures
        p <= skip_ws(l, p) <= l.len(),
    decreases l.len() - p,
{
    if p < l.len() && is_white_space(l[p]) {
        lemma_skip_ws_bounds(l, p + 1);
    }
}

pub proof fn lemma_find_quote_all(l: Seq<char>, p: int)
    requires
        0 <= p <= l.len(),
    ensures
        p <= find_quote(l, p) <= l.len(),
        forall|j: int| p <= j < find_quote(l, p) ==> #[trigger] l[j] != '"',
        find_quote(l, p) < l.len() ==> l[find_quote(l, p)] == '"',
    decreases l.len() - p,
{
    if p < l.len() && l[p] != '"' {
        lemma_find_quote_all(l, p + 1);
    }
}

/// The shape of an include directive matched at character positions
/// `(start, end, is_file, path_start, path_end)`: it opens with `<!--`, closes
/// with `-->`, and its path lies between two quotes that it does not contain.
pub open spec fn include_shape(l: Seq<char>, m: IncludeMatch) -> bool {
    &&& 0 <= m.0
    &&& m.0 + 4 < m.3
    &&& m.3 <= m.4
    &&& m.4 + 3 < m.1
    &&& m.1 <= l.len()
    &&& l.subrange(m.0, m.0 + 4) == open_comment()
    &&& l.subrange(m.1 - 3, m.1) == close_comment()
    &&& l[m.3 - 1] == '"'
    &&& l[m.4] == '"'
    &&& forall|j: int| m.3 <= j < m.4 ==> #[trigger] l[j] != '"'
}

/// A match at `i` starts at `i` and has the shape of a directive.
pub proof fn lemma_include_at_shape(l: Seq<char>, i: int)
    requires
        0 <= i,
    ensures
        include_at(l, i) matches Some(m) ==> m.0 == i && include_shape(l, m),
{
    if lit_at(l, i, open_comment()) {
        lemma_skip_ws_bounds(l, i + 4);
        let a = skip_ws(l, i + 4);
        if a < l.len() && l[a] == '#' && ci_at(l, a + 1, kw_include()) {
            let b = a + 8;
            lemma_skip_ws_bounds(l, b);
            let c = skip_ws(l, b);
            let file = ci_at(l, c, kw_file());
            let virt = ci_at(l, c, kw_virtual());
            if c != b && (file || virt) {
                let d = if file {
                    c + 4
                } else {
                    c + 7
                };
                lemma_skip_ws_bounds(l, d);
                let e = skip_ws(l, d);
                if e < l.len() && l[e] == '=' {
                    lemma_skip_ws_bounds(l, e + 1);
                    let f = skip_ws(l, e + 1);
                    if f < l.len() && l[f] == '"' {
                        lemma_find_quote_all(l, f + 1);
                        let pe = find_quote(l, f + 1);
                        if pe < l.len() {
                            lemma_skip_ws_bounds(l, pe + 1);
                            let g = skip_ws(l, pe + 1);
                            if lit_at(l, g, close_comment()) {
                                assert forall|k: int| 0 <= k < 4 implies l.subrange(i, i + 4)[k] == open_comment()[k] by {
                                    assert(l[i + k] == open_comment()[k]);
                                }
                                assert(l.subrange(i, i + 4) =~= open_comment());
                                assert forall|k: int| 0 <= k < 3 implies l.subrange(g, g + 3)[k] == close_comment()[k] by {
                                    assert(l[g + k] == close_comment()[k]);
                                }
                                assert(l.subrange(g, g + 3) =~= close_comment());
                            }
                        }
                    }
                }
            }
        }
    }
}

/// Successive matches from `from` start there or later, have the shape of a
/// directive, and each ends before the next begins.
pub proof fn lemma_include_matches(l: Seq<char>, from: int)
    requires
        0 <= from,
    ensures
        forall|k: int|
            0 <= k < include_matches(l, from).len() ==> from <= (#[trigger] include_matches(l, from)[k]).0 && include_shape(
                l,
                include_matches(l, from)[k],
            ),
        forall|a: int, b: int|
            0 <= a < b < include_matches(l, from).len() ==> (#[trigger] include_matches(l, from)[a]).1
                <= (#[trigger] include_matches(l, from)[b]).0,
    decreases l.len() - from,
{
    if from < l.len() {
        lemma_include_at_shape(l, from);
        match include_at(l, from) {
            Some(m) => {
                if m.1 > from {
                    lemma_include_matches(l, m.1);
                    let rest = include_matches(l, m.1);
                    let all = include_matches(l, from);
                    assert(all == seq![m] + rest);
                    assert forall|k: int| 0 <= k < all.len() implies from <= (#[trigger] all[k]).0 && include_shape(l, all[k]) by {
                        if k > 0 {
                            assert(all[k] == rest[k - 1]);
                        }
                    }
                    assert forall|a: int, b: int| 0 <= a < b < all.len() implies (#[trigger] all[a]).1 <= (#[trigger] all[b]).0 by {
                        assert(all[b] == rest[b - 1]);
                        if a > 0 {
                            assert(all[a] == rest[a - 1]);
                        }
                    }
                } else {
                    assert(include_matches(l, from).len() == 0);
                }
            },
            None => {
                lemma_include_matches(l, from + 1);
                assert(include_matches(l, from) == include_matches(l, from + 1));
            },
        }
    }
}

fn skip_ws_exec(l: &Vec<char>, p: usize) -> (r: usize)
    requires
        p <= l@.len(),
    ensures
        r == skip_ws(l@, p as int),
        p <= r <= l@.len(),
{
    let mut q = p;
    while q < l.len() && white_space(l[q])
        invariant
            p <= q <= l@.len(),
            skip_ws(l@, q as int) == skip_ws(l@, p as int),
        decreases l@.len() - q,
    {
        q += 1;
    }
    q
}

fn skip_word_exec(l: &Vec<char>, p: usize) -> (r: usize)
    requires
        p <= l@.len(),
    ensures
        r == skip_word(l@, p as int),
        p <= r <= l@.len(),
{
    let mut q = p;
    while q < l.len() && word_character(l[q])
        invariant
            p <= q <= l@.len(),
            skip_word(l@, q as int) == skip_word(l@, p as int),
        decreases l@.len() - q,
    {
        q += 1;
    }
    q
}

fn find_quote_exec(l: &Vec<char>, p: usize) -> (r: usize)
    requires
        p <= l@.len(),
    ensures
        r == find_quote(l@, p as int),
        p <= r <= l@.len(),
{
    let mut q = p;
    while q < l.len() && l[q] != '"'
        invariant
            p <= q <= l@.len(),
            find_quote(l@, q as int) == find_quote(l@, p as int),
        decreases l@.len() - q,
    {
        q += 1;
    }
    q
}

/// An include directive matched at `start`: `(start, end, is_file, path_start, path_end)`,
/// all character positions in the line; the path is `[path_start, path_end)`.
pub type IncludeMatch = (int, int, bool, int, int);

/// The match of `<!--\s*#include\s+(file|virtual)\s*=\s*"([^"]*)"\s*-->`
/// (case-insensitive) starting exactly at `i`, if any.
pub open spec fn include_at(l: Seq<char>, i: int) -> Option<IncludeMatch> {
    if !lit_at(l, i, open_comment()) {
        None
    } else {
        let a = skip_ws(l, i + 4);
        if !(a < l.len() && l[a] == '#' && ci_at(l, a + 1, kw_include())) {
            None
        } else {
            let b = a + 8;
            let c = skip_ws(l, b);
            let file = ci_at(l, c, kw_file());
            let virt = ci_at(l, c, kw_virtual());
            if c == b || !(file || virt) {
                None
            } else {
                let d = if file {
                    c + 4
                } else {
                    c + 7
                };
                let e = skip_ws(l, d);
                if !(e < l.len() && l[e] == '=') {
                    None
                } else {
                    let f = skip_ws(l, e + 1);
                    if !(f < l.len() && l[f] == '"') {
                        None
                    } else {
                        let pe = find_quote(l, f + 1);
                        if pe >= l.len() {
                            None
                        } else {
                            let g = skip_ws(l, pe + 1);
                            if !lit_at(l, g, close_comment()) {
                                None
                            } else {
                                Some((i, g + 3, file, f + 1, pe))
                            }
                        }
                    }
                }
            }
        }
    }
}

/// Successive non-overlapping leftmost include matches at or after `from`.
pub open spec fn include_matches(l: Seq<char>, from: int) -> Seq<IncludeMatch>
    decreases l.len() - from,
{
    if from < 0 || from >= l.len() {
        Seq::empty()
    } else {
        match include_at(l, from) {
            Some(m) => if m.1 > from {
                seq![m] + include_matches(l, m.1)
            } else {
                Seq::empty()
            },
            None => include_matches(l, from + 1),
        }
    }
}

/// An include match in executable form.
pub struct IncludeSpan {
    pub start: usize,
    pub end: usize,
    pub is_file: bool,
    pub path_start: usize,
    pub path_end: usize,
}

impl IncludeSpan {
    pub open spec fn spec(self) -> IncludeMatch {
        (self.start as int, self.end as int, self.is_file, self.path_start as int, self.path_end as int)
    }
}

pub fn include_at_exec(l: &Vec<char>, i: usize) -> (r: Option<IncludeSpan>)
    requires
        i <= l@.len(),
    ensures
        r matches Some(m) ==> include_at(l@, i as int) == Some(m.spec()) && m.end <= l@.len()
            && i < m.end && m.path_start <= m.path_end <= m.end,
        r is None ==> include_at(l@, i as int) is None,
{
    let len = l.len();
    if !match_lit(l, i, &['<', '!', '-', '-']) {
        return None;
    }
    let a = skip_ws_exec(l, i + 4);
    if !(a < l.len() && l[a] == '#' && match_ci(l, a + 1, &['i', 'n', 'c', 'l', 'u', 'd', 'e'])) {
        return None;
    }
    let b = a + 8;
    let c = skip_ws_exec(l, b);
    let file = match_ci(l, c, &['f', 'i', 'l', 'e']);
    let virt = match_ci(l, c, &['v', 'i', 'r', 't', 'u', 'a', 'l']);
    if c == b || !(file || virt) {
        return None;
    }
    let d = if file {
        c + 4
    } else {
        c + 7
    };
    let e = skip_ws_exec(l, d);
    if !(e < l.len() && l[e] == '=') {
        return None;
    }
    let f = skip_ws_exec(l, e + 1);
    if !(f < l.len() && l[f] == '"') {
        return None;
    }
    let pe = find_quote_exec(l, f + 1);
    if pe >= l.len() {
        return None;
    }
    let g = skip_ws_exec(l, pe + 1);
    if !match_lit(l, g, &['-', '-', '>']) {
        return None;
    }
    Some(IncludeSpan { start: i, end: g + 3, is_file: file, path_start: f + 1, path_end: pe })
}

pub open spec fn spans_spec(v: Seq<IncludeSpan>) -> Seq<IncludeMatch> {
    v.map_values(|m: IncludeSpan| m.spec())
}

/// All include directives of the line, left to right.
pub fn include_spans(l: &Vec<char>) -> (r: Vec<IncludeSpan>)
    ensures
        spans_spec(r@) == include_matches(l@, 0),
        forall|k: int|
            0 <= k < r@.len() ==> (#[trigger] r@[k]).path_start <= r@[k].path_end <= r@[k].end
                <= l@.len() && r@[k].start < r@[k].end,
{
    let mut r: Vec<IncludeSpan> = Vec::new();
    let mut i: usize = 0;
    while i < l.len()
        invariant
            i <= l@.len(),
            spans_spec(r@) + include_matches(l@, i as int) == include_matches(l@, 0),
            forall|k: int|
                0 <= k < r@.len() ==> (#[trigger] r@[k]).path_start <= r@[k].path_end
                    <= r@[k].end <= l@.len() && r@[k].start < r@[k].end,
        decreases l@.len() - i,
    {
        match include_at_exec(l, i) {
            Some(m) => {
                let ghost old_r = r@;
                let end = m.end;
                r.push(m);
                proof {
                    assert(spans_spec(r@) =~= spans_spec(old_r) + seq![m.spec()]);
                    assert(spans_spec(r@) + include_matches(l@, end as int) =~= spans_spec(old_r)
                        + include_matches(l@, i as int));
                }
                i = end;
            },
            None => {
                i += 1;
            },
        }
    }
    proof {
        assert(include_matches(l@, i as int) =~= Seq::<IncludeMatch>::empty());
        assert(spans_spec(r@) + Seq::<IncludeMatch>::empty() =~= spans_spec(r@));
    }
    r
}

/// `^\s*(?:<%=?\s*)?`: where a definition may start.
pub open spec fn after_prefix(l: Seq<char>) -> int {
    let p = skip_ws(l, 0);
    if lit_at(l, p, open_delimiter()) {
        let q = if p + 2 < l.len() && l[p + 2] == '=' {
            p + 3
        } else {
            p + 2
        };
        skip_ws(l, q)
    } else {
        p
    }
}

/// Length of the modifier keyword (`public`, `private`, `default`) at `p`, or 0.
pub open spec fn modifier_len(l: Seq<char>, p: int) -> int {
    if ci_at(l, p, kw_public()) {
        6
    } else if ci_at(l, p, kw_private()) {
        7
    } else if ci_at(l, p, kw_default()) {
        7
    } else {
        0
    }
}

/// `(?:(?:public|private|default)\s+)*` from `p`.
pub open spec fn skip_modifiers(l: Seq<char>, p: int) -> int
    decreases l.len() - p,
{
    let k = modifier_len(l, p);
    if k > 0 && 0 <= p && p + k < l.len() && is_white_space(l[p + k]) {
        proof {
            lemma_skip_ws_bounds(l, p + k);
        }
        skip_modifiers(l, skip_ws(l, p + k))
    } else {
        p
    }
}

/// Keyword `w` at `p` followed by at least one whitespace character.
pub open spec fn keyword_ws_at(l: Seq<char>, p: int, w: Seq<char>) -> bool {
    ci_at(l, p, w) && p + w.len() < l.len() && is_white_space(l[p + w.len()])
}

/// `([a-zA-Z_]\w*)` at `p`: the character range of the name.
pub open spec fn name_at(l: Seq<char>, p: int) -> Option<(int, int)> {
    if 0 <= p < l.len() && is_name_start(l[p]) {
        Some((p, skip_word(l, p + 1)))
    } else {
        None
    }
}

/// The kind a matched `sub` / `function` keyword gives: `Sub` when the
/// keyword equals `sub` ignoring ASCII case, `Function` otherwise (so a
/// keyword matched only by Unicode case folding, such as `ſub`, counts as
/// `Function`).
pub open spec fn keyword_kind(keyword: Seq<char>) -> SymbolKind {
    if eq_ignore_ascii_case(keyword, kw_sub()) {
        SymbolKind::Sub
    } else {
        SymbolKind::Function
    }
}

/// `^\s*(?:<%=?\s*)?(?:(?:public|private|default)\s+)*(sub|function)\s+([a-zA-Z_]\w*)`
pub open spec fn sub_function_match(l: Seq<char>) -> Option<(SymbolKind, int, int)> {
    let p = skip_modifiers(l, after_prefix(l));
    if keyword_ws_at(l, p, kw_sub()) {
        match name_at(l, skip_ws(l, p + 3)) {
            Some((s, e)) => Some((keyword_kind(l.subrange(p, p + 3)), s, e)),
            None => None,
        }
    } else if keyword_ws_at(l, p, kw_function()) {
        match name_at(l, skip_ws(l, p + 8)) {
            Some((s, e)) => Some((SymbolKind::Function, s, e)),
            None => None,
        }
    } else {
        None
    }
}

/// `^\s*(?:<%=?\s*)?(?:(?:public|private|default)\s+)*property\s+(?:get|let|set)\s+([a-zA-Z_]\w*)`
pub open spec fn property_match(l: Seq<char>) -> Option<(SymbolKind, int, int)> {
    let p = skip_modifiers(l, after_prefix(l));
    if keyword_ws_at(l, p, kw_property()) {
        let q = skip_ws(l, p + 8);
        if keyword_ws_at(l, q, kw_get()) || keyword_ws_at(l, q, kw_let()) || keyword_ws_at(
            l,
            q,
            kw_set(),
        ) {
            match name_at(l, skip_ws(l, q + 3)) {
                Some((s, e)) => Some((SymbolKind::Property, s, e)),
                None => None,
            }
        } else {
            None
        }
    } else {
        None
    }
}

/// `^\s*(?:<%=?\s*)?class\s+([a-zA-Z_]\w*)`
pub open spec fn class_match(l: Seq<char>) -> Option<(SymbolKind, int, int)> {
    let p = after_prefix(l);
    if keyword_ws_at(l, p, kw_class()) {
        match name_at(l, skip_ws(l, p + 5)) {
            Some((s, e)) => Some((SymbolKind::Class, s, e)),
            None => None,
        }
    } else {
        None
    }
}

/// The definition on a line: `Sub`/`Function` first, then `Property`, then `Class`.
pub open spec fn definition_match(l: Seq<char>) -> Option<(SymbolKind, int, int)> {
    if sub_function_match(l) is Some {
        sub_function_match(l)
    } else if property_match(l) is Some {
        property_match(l)
    } else {
        class_match(l)
    }
}

fn after_prefix_exec(l: &Vec<char>) -> (r: usize)
    ensures
        r == after_prefix(l@),
        r <= l@.len(),
{
    let len = l.len();
    let p = skip_ws_exec(l, 0);
    if match_lit(l, p, &['<', '%']) {
        let q = if p + 2 < l.len() && l[p + 2] == '=' {
            p + 3
        } else {
            p + 2
        };
        skip_ws_exec(l, q)
    } else {
        p
    }
}

fn modifier_len_exec(l: &Vec<char>, p: usize) -> (r: usize)
    ensures
        r == modifier_len(l@, p as int),
{
    if match_ci(l, p, &['p', 'u', 'b', 'l', 'i', 'c']) {
        6
    } else if match_ci(l, p, &['p', 'r', 'i', 'v', 'a', 't', 'e']) {
        7
    } else if match_ci(l, p, &['d', 'e', 'f', 'a', 'u', 'l', 't']) {
        7
    } else {
        0
    }
}

fn skip_modifiers_exec(l: &Vec<char>, p: usize) -> (r: usize)
    requires
        p <= l@.len(),
    ensures
        r == skip_modifiers(l@, p as int),
        p <= r <= l@.len(),
{
    let mut q = p;
    let len = l.len();
    loop
        invariant
            p <= q <= l@.len() <= usize::MAX,
            skip_modifiers(l@, q as int) == skip_modifiers(l@, p as int),
        decreases l@.len() - q,
    {
        let k = modifier_len_exec(l, q);
        if k > 0 && q + k < l.len() && white_space(l[q + k]) {
            q = skip_ws_exec(l, q + k);
        } else {
            return q;
        }
    }
}

fn keyword_ws_exec(l: &Vec<char>, p: usize, w: &[char]) -> (r: bool)
    ensures
        r == keyword_ws_at(l@, p as int, w@),
{
    let len = l.len();
    match_ci(l, p, w) && p + w.len() < len && white_space(l[p + w.len()])
}

fn name_at_exec(l: &Vec<char>, p: usize) -> (r: Option<(usize, usize)>)
    requires
        p <= l@.len(),
    ensures
        r matches Some((s, e)) ==> name_at(l@, p as int) == Some((s as int, e as int)) && s < e
            <= l@.len(),
        r is None ==> name_at(l@, p as int) is None,
{
    if p < l.len() && name_start(l[p]) {
        let e = skip_word_exec(l, p + 1);
        Some((p, e))
    } else {
        None
    }
}

/// The kind and character range of the name of the definition on the line, if any.
pub fn definition_on_line(l: &Vec<char>) -> (r: Option<(SymbolKind, usize, usize)>)
    ensures
        r matches Some((k, s, e)) ==> definition_match(l@) == Some((k, s as int, e as int)) && s
            < e <= l@.len(),
        r is None ==> definition_match(l@) is None,
{
    let len = l.len();
    let start = after_prefix_exec(l);
    let p = skip_modifiers_exec(l, start);
    if keyword_ws_exec(l, p, &['s', 'u', 'b']) {
        let q = skip_ws_exec(l, p + 3);
        if let Some((s, e)) = name_at_exec(l, q) {
            let ascii_sub = lower_char(l[p]) == 's' && lower_char(l[p + 1]) == 'u' && lower_char(l[p + 2]) == 'b';
            proof {
                let kw = l@.subrange(p as int, p + 3);
                let lowered = ascii_lower_seq(kw);
                assert(lowered.len() == 3);
                assert(lowered[0] == ascii_lower(l@[p as int]));
                assert(lowered[1] == ascii_lower(l@[p + 1]));
                assert(lowered[2] == ascii_lower(l@[p + 2]));
                assert(ascii_lower_seq(kw_sub()) =~= kw_sub());
                if ascii_sub {
                    assert(lowered =~= ascii_lower_seq(kw_sub()));
                }
            }
            if ascii_sub {
                return Some((SymbolKind::Sub, s, e));
            } else {
                return Some((SymbolKind::Function, s, e));
            }
        }
    } else if keyword_ws_exec(l, p, &['f', 'u', 'n', 'c', 't', 'i', 'o', 'n']) {
        let q = skip_ws_exec(l, p + 8);
        if let Some((s, e)) = name_at_exec(l, q) {
            return Some((SymbolKind::Function, s, e));
        }
    }
    if keyword_ws_exec(l, p, &['p', 'r', 'o', 'p', 'e', 'r', 't', 'y']) {
        let q = skip_ws_exec(l, p + 8);
        if keyword_ws_exec(l, q, &['g', 'e', 't']) || keyword_ws_exec(l, q, &['l', 'e', 't'])
            || keyword_ws_exec(l, q, &['s', 'e', 't']) {
            let q2 = skip_ws_exec(l, q + 3);
            if let Some((s, e)) = name_at_exec(l, q2) {
                return Some((SymbolKind::Property, s, e));
            }
        }
    }
    if keyword_ws_exec(l, start, &['c', 'l', 'a', 's', 's']) {
        let q = skip_ws_exec(l, start + 5);
        if let Some((s, e)) = name_at_exec(l, q) {
            return Some((SymbolKind::Class, s, e));
        }
    }
    None
}

} // verus!
