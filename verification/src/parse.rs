//! The index of one source file: its include directives (with the file each
//! resolves to) and its `Sub` / `Function` / `Class` / `Property` definitions.

use vstd::prelude::*;
use crate::files::{Disk, opt_view, resolve_existing_spec};
use crate::grammar::{definition_match, definition_on_line, include_matches, include_spans, spans_spec, IncludeMatch, IncludeSpan};
use crate::paths::{join_chars, join_spec, parent_chars, parent_spec};
use crate::text::{
    byte_len, chars_of, lemma_byte_len_prefix_mono, lemma_byte_len_push, lines, lines_state,
    split_lines, str_byte_len, string_of, strip_cr, trim, trim_bounds, views_of,
};

pub use crate::paths::normalize;

verus! {

#[derive(Debug, Clone, Copy, PartialEq, Eq, Structural)]
pub enum IncludeKind {
    File,
    Virtual,
}

#[derive(Debug)]
pub struct IncludeDirective {
    pub kind: IncludeKind,
    pub raw_path: String,
    pub resolved: Option<String>,
    pub line: u32,
    /// Byte range of the quoted path (without quotes) within the line.
    pub path_span: (usize, usize),
    /// Byte range of the whole directive within the line.
    pub directive_span: (usize, usize),
}

#[derive(Debug, Clone, Copy, PartialEq, Eq, Structural)]
pub enum SymbolKind {
    Sub,
    Function,
    Class,
    Property,
}

#[derive(Debug)]
pub struct SymbolDef {
    pub name: String,
    pub kind: SymbolKind,
    pub line: u32,
    /// Byte range of the name within the line.
    pub name_span: (usize, usize),
    /// The trimmed definition line, used for hover.
    pub signature: String,
}

#[derive(Debug, Default)]
pub struct FileIndex {
    pub includes: Vec<IncludeDirective>,
    pub symbols: Vec<SymbolDef>,
}

/// An include directive as values.
pub struct IncludeView {
    pub kind: IncludeKind,
    pub raw_path: Seq<char>,
    pub resolved: Option<Seq<char>>,
    pub line: u32,
    pub path_span: (usize, usize),
    pub directive_span: (usize, usize),
}

/// A definition as values.
pub struct SymbolView {
    pub name: Seq<char>,
    pub kind: SymbolKind,
    pub line: u32,
    pub name_span: (usize, usize),
    pub signature: Seq<char>,
}

pub struct FileIndexView {
    pub includes: Seq<IncludeView>,
    pub symbols: Seq<SymbolView>,
}

impl View for IncludeDirective {
    type V = IncludeView;

    open spec fn view(&self) -> IncludeView {
        IncludeView {
            kind: self.kind,
            raw_path: self.raw_path@,
            resolved: opt_view(self.resolved),
            line: self.line,
            path_span: self.path_span,
            directive_span: self.directive_span,
        }
    }
}

impl View for SymbolDef {
    type V = SymbolView;

    open spec fn view(&self) -> SymbolView {
        SymbolView {
            name: self.name@,
            kind: self.kind,
            line: self.line,
            name_span: self.name_span,
            signature: self.signature@,
        }
    }
}

pub open spec fn includes_view(v: Seq<IncludeDirective>) -> Seq<IncludeView> {
    v.map_values(|d: IncludeDirective| d@)
}

pub open spec fn symbols_view(v: Seq<SymbolDef>) -> Seq<SymbolView> {
    v.map_values(|d: SymbolDef| d@)
}

impl View for FileIndex {
    type V = FileIndexView;

    open spec fn view(&self) -> FileIndexView {
        FileIndexView { includes: includes_view(self.includes@), symbols: symbols_view(self.symbols@) }
    }
}

impl IncludeDirective {
    pub fn copy(&self) -> (r: IncludeDirective)
        ensures
            r@ == self@,
    {
        IncludeDirective {
            kind: self.kind,
            raw_path: self.raw_path.clone(),
            resolved: match &self.resolved {
                Some(p) => Some(p.clone()),
                None => None,
            },
            line: self.line,
            path_span: self.path_span,
            directive_span: self.directive_span,
        }
    }
}

impl SymbolDef {
    pub fn copy(&self) -> (r: SymbolDef)
        ensures
            r@ == self@,
    {
        SymbolDef {
            name: self.name.clone(),
            kind: self.kind,
            line: self.line,
            name_span: self.name_span,
            signature: self.signature.clone(),
        }
    }
}

impl FileIndex {
    pub fn copy(&self) -> (r: FileIndex)
        ensures
            r@ == self@,
    {
        let mut includes: Vec<IncludeDirective> = Vec::new();
        let mut i: usize = 0;
        while i < self.includes.len()
            invariant
                i <= self.includes@.len(),
                includes_view(includes@) == includes_view(self.includes@).take(i as int),
            decreases self.includes@.len() - i,
        {
            let ghost old_v = includes@;
            let c = self.includes[i].copy();
            includes.push(c);
            proof {
                assert(includes_view(includes@) =~= includes_view(old_v).push(c@));
                assert(includes_view(includes@) =~= includes_view(self.includes@).take(i + 1));
            }
            i += 1;
        }
        let mut symbols: Vec<SymbolDef> = Vec::new();
        let mut j: usize = 0;
        while j < self.symbols.len()
            invariant
                j <= self.symbols@.len(),
                symbols_view(symbols@) == symbols_view(self.symbols@).take(j as int),
            decreases self.symbols@.len() - j,
        {
            let ghost old_s = symbols@;
            let c = self.symbols[j].copy();
            symbols.push(c);
            proof {
                assert(symbols_view(symbols@) =~= symbols_view(old_s).push(c@));
                assert(symbols_view(symbols@) =~= symbols_view(self.symbols@).take(j + 1));
            }
            j += 1;
        }
        proof {
            assert(includes_view(self.includes@).take(i as int) =~= includes_view(self.includes@));
            assert(symbols_view(self.symbols@).take(j as int) =~= symbols_view(self.symbols@));
        }
        FileIndex { includes, symbols }
    }
}

/// `str::replace('\\', "/")`.
pub open spec fn backslashes_to_slashes(s: Seq<char>) -> Seq<char> {
    s.map_values(|c: char| if c == '\\' { '/' } else { c })
}

/// `str::trim_start_matches('/')`.
pub open spec fn trim_start_slashes(s: Seq<char>) -> Seq<char>
    decreases s.len(),
{
    if s.len() > 0 && s[0] == '/' {
        trim_start_slashes(s.drop_first())
    } else {
        s
    }
}

/// The path an include directive names, before it is looked up: relative to
/// the including file's directory for `file=`, relative to the web root for
/// `virtual=` and for a `file=` path that starts with `/`.
pub open spec fn include_candidate(
    from_file: Seq<char>,
    web_root: Seq<char>,
    kind: IncludeKind,
    raw: Seq<char>,
) -> Option<Seq<char>> {
    let cleaned = backslashes_to_slashes(trim(raw));
    if kind == IncludeKind::File && !(cleaned.len() > 0 && cleaned[0] == '/') {
        match parent_spec(from_file) {
            Some(dir) => Some(join_spec(dir, cleaned)),
            None => None,
        }
    } else {
        Some(join_spec(web_root, trim_start_slashes(cleaned)))
    }
}

/// The existing file an include directive refers to.
pub open spec fn resolve_include_spec(
    from_file: Seq<char>,
    web_root: Seq<char>,
    kind: IncludeKind,
    raw: Seq<char>,
    files: (Seq<Seq<char>>, Seq<(Seq<char>, Seq<char>)>),
) -> Option<Seq<char>> {
    match include_candidate(from_file, web_root, kind, raw) {
        Some(c) => resolve_existing_spec(files.0, files.1, c),
        None => None,
    }
}

fn backslashes_to_slashes_exec(s: &Vec<char>, from: usize, to: usize) -> (r: Vec<char>)
    requires
        from <= to <= s@.len(),
    ensures
        r@ == backslashes_to_slashes(s@.subrange(from as int, to as int)),
{
    let mut r: Vec<char> = Vec::new();
    let mut i = from;
    while i < to
        invariant
            from <= i <= to <= s@.len(),
            r@ == backslashes_to_slashes(s@.subrange(from as int, i as int)),
        decreases to - i,
    {
        let c = if s[i] == '\\' {
            '/'
        } else {
            s[i]
        };
        r.push(c);
        proof {
            assert(backslashes_to_slashes(s@.subrange(from as int, i + 1)) =~= backslashes_to_slashes(
                s@.subrange(from as int, i as int),
            ).push(c));
        }
        i += 1;
    }
    r
}

fn trim_start_slashes_exec(s: &Vec<char>) -> (r: Vec<char>)
    ensures
        r@ == trim_start_slashes(s@),
{
    let mut i: usize = 0;
    proof {
        assert(s@.subrange(0, s@.len() as int) =~= s@);
    }
    while i < s.len() && s[i] == '/'
        invariant
            i <= s@.len(),
            trim_start_slashes(s@.subrange(i as int, s@.len() as int)) == trim_start_slashes(s@),
        decreases s@.len() - i,
    {
        proof {
            assert(s@.subrange(i as int, s@.len() as int).drop_first() =~= s@.subrange(
                i + 1,
                s@.len() as int,
            ));
        }
        i += 1;
    }
    let mut r: Vec<char> = Vec::new();
    let mut j = i;
    while j < s.len()
        invariant
            i <= j <= s@.len(),
            r@ == s@.subrange(i as int, j as int),
        decreases s@.len() - j,
    {
        r.push(s[j]);
        proof {
            assert(s@.subrange(i as int, j + 1) =~= s@.subrange(i as int, j as int).push(s@[j as int]));
        }
        j += 1;
    }
    r
}

fn resolve_include_chars(
    from_file: &Vec<char>,
    web_root: &Vec<char>,
    kind: IncludeKind,
    raw: &Vec<char>,
    disk: &Disk,
) -> (r: Option<String>)
    ensures
        opt_view(r) == resolve_include_spec(from_file@, web_root@, kind, raw@, disk.known()),
{
    let (a, b) = trim_bounds(raw);
    let cleaned = backslashes_to_slashes_exec(raw, a, b);
    let leading_slash = cleaned.len() > 0 && cleaned[0] == '/';
    if kind == IncludeKind::File && !leading_slash {
        match parent_chars(from_file) {
            Some(dir) => {
                let candidate = join_chars(&dir, &cleaned);
                disk.resolve_existing(&candidate)
            },
            None => None,
        }
    } else {
        let rel = trim_start_slashes_exec(&cleaned);
        let candidate = join_chars(web_root, &rel);
        disk.resolve_existing(&candidate)
    }
}

/// The existing file that the include directive `raw` of kind `kind` in
/// `from_file` refers to, with `web_root` as the root of `virtual=` paths.
pub fn resolve_include(
    from_file: &str,
    web_root: &str,
    kind: IncludeKind,
    raw: &str,
    disk: &Disk,
) -> (r: Option<String>)
    ensures
        opt_view(r) == resolve_include_spec(from_file@, web_root@, kind, raw@, disk.known()),
{
    let f = chars_of(from_file);
    let w = chars_of(web_root);
    let v = chars_of(raw);
    resolve_include_chars(&f, &w, kind, &v, disk)
}

/// Byte offset of character position `i` of `l`, as the index stores it.
pub open spec fn byte_at(l: Seq<char>, i: int) -> usize {
    byte_len(l.take(i)) as usize
}

/// The directive that include match `m` on line `l` (number `k`) of `path` gives.
pub open spec fn include_view_of(
    l: Seq<char>,
    k: int,
    m: IncludeMatch,
    path: Seq<char>,
    web_root: Seq<char>,
    files: (Seq<Seq<char>>, Seq<(Seq<char>, Seq<char>)>),
) -> IncludeView {
    let kind = if m.2 {
        IncludeKind::File
    } else {
        IncludeKind::Virtual
    };
    let raw = l.subrange(m.3, m.4);
    IncludeView {
        kind,
        raw_path: raw,
        resolved: resolve_include_spec(path, web_root, kind, raw, files),
        line: k as u32,
        path_span: (byte_at(l, m.3), byte_at(l, m.4)),
        directive_span: (byte_at(l, m.0), byte_at(l, m.1)),
    }
}

pub open spec fn line_includes(
    l: Seq<char>,
    k: int,
    path: Seq<char>,
    web_root: Seq<char>,
    files: (Seq<Seq<char>>, Seq<(Seq<char>, Seq<char>)>),
) -> Seq<IncludeView> {
    include_matches(l, 0).map_values(|m: IncludeMatch| include_view_of(l, k, m, path, web_root, files))
}

/// The directives of all lines, in order.
pub open spec fn file_includes(
    ls: Seq<Seq<char>>,
    path: Seq<char>,
    web_root: Seq<char>,
    files: (Seq<Seq<char>>, Seq<(Seq<char>, Seq<char>)>),
) -> Seq<IncludeView>
    decreases ls.len(),
{
    if ls.len() == 0 {
        Seq::empty()
    } else {
        file_includes(ls.drop_last(), path, web_root, files) + line_includes(
            ls.last(),
            ls.len() - 1,
            path,
            web_root,
            files,
        )
    }
}

/// The definition on line `l` (number `k`), if any.
pub open spec fn line_symbol(l: Seq<char>, k: int) -> Option<SymbolView> {
    match definition_match(l) {
        Some((kind, s, e)) => Some(
            SymbolView {
                name: l.subrange(s, e),
                kind,
                line: k as u32,
                name_span: (byte_at(l, s), byte_at(l, e)),
                signature: trim(l),
            },
        ),
        None => None,
    }
}

/// The definitions of all lines, in order.
pub open spec fn file_symbols(ls: Seq<Seq<char>>) -> Seq<SymbolView>
    decreases ls.len(),
{
    if ls.len() == 0 {
        Seq::empty()
    } else {
        match line_symbol(ls.last(), ls.len() - 1) {
            Some(s) => file_symbols(ls.drop_last()).push(s),
            None => file_symbols(ls.drop_last()),
        }
    }
}

/// The index of `text`, the contents of the file `path`.
pub open spec fn parse_spec(
    text: Seq<char>,
    path: Seq<char>,
    web_root: Seq<char>,
    files: (Seq<Seq<char>>, Seq<(Seq<char>, Seq<char>)>),
) -> FileIndexView {
    FileIndexView {
        includes: file_includes(lines(text), path, web_root, files),
        symbols: file_symbols(lines(text)),
    }
}

proof fn lemma_lines_state_bytes(t: Seq<char>)
    ensures
        forall|i: int|
            0 <= i < lines_state(t).0.len() ==> byte_len(#[trigger] lines_state(t).0[i]) <= byte_len(
                t,
            ),
        byte_len(lines_state(t).1) <= byte_len(t),
    decreases t.len(),
{
    if t.len() > 0 {
        let p = t.drop_last();
        lemma_lines_state_bytes(p);
        assert(t =~= p.push(t.last()));
        lemma_byte_len_push(p, t.last());
        let (done, cur) = lines_state(p);
        if t.last() == '\n' {
            if cur.len() > 0 && cur.last() == '\r' {
                assert(cur =~= cur.drop_last().push(cur.last()));
                lemma_byte_len_push(cur.drop_last(), cur.last());
            }
            assert forall|i: int| 0 <= i < lines_state(t).0.len() implies byte_len(
                #[trigger] lines_state(t).0[i],
            ) <= byte_len(t) by {
                if i < done.len() {
                    assert(lines_state(t).0[i] == done[i]);
                } else {
                    assert(lines_state(t).0[i] == strip_cr(cur));
                }
            }
        } else {
            lemma_byte_len_push(cur, t.last());
        }
    }
}

pub proof fn lemma_lines_bytes(t: Seq<char>, i: int)
    requires
        0 <= i < lines(t).len(),
    ensures
        byte_len(lines(t)[i]) <= byte_len(t),
{
    lemma_lines_state_bytes(t);
    let (done, cur) = lines_state(t);
    if i < done.len() {
        assert(lines(t)[i] == done[i]);
    }
}

/// `offsets[i]` is the byte offset of character `i` of `l`, for `i <= l.len()`.
fn byte_offsets(l: &Vec<char>) -> (r: Vec<usize>)
    requires
        byte_len(l@) <= usize::MAX,
    ensures
        r@.len() == l@.len() + 1,
        forall|i: int| 0 <= i <= l@.len() ==> #[trigger] r@[i] == byte_len(l@.take(i)),
{
    let mut r: Vec<usize> = Vec::new();
    r.push(0);
    proof {
        assert(l@.take(0) =~= Seq::<char>::empty());
    }
    let mut acc: usize = 0;
    let mut i: usize = 0;
    while i < l.len()
        invariant
            i <= l@.len(),
            byte_len(l@) <= usize::MAX,
            r@.len() == i + 1,
            acc == byte_len(l@.take(i as int)),
            forall|j: int| 0 <= j <= i ==> #[trigger] r@[j] == byte_len(l@.take(j)),
        decreases l@.len() - i,
    {
        proof {
            assert(l@.take(i + 1) =~= l@.take(i as int).push(l@[i as int]));
            lemma_byte_len_push(l@.take(i as int), l@[i as int]);
            lemma_byte_len_prefix_mono(l@, i + 1, l@.len() as int);
            assert(l@.take(l@.len() as int) =~= l@);
        }
        acc = acc + crate::text::char_utf8_width(l[i]);
        r.push(acc);
        i += 1;
    }
    r
}

fn include_directive_of(
    l: &Vec<char>,
    k: usize,
    m: &IncludeSpan,
    offsets: &Vec<usize>,
    path: &Vec<char>,
    web_root: &Vec<char>,
    disk: &Disk,
) -> (r: IncludeDirective)
    requires
        m.path_start <= m.path_end <= m.end <= l@.len(),
        m.start <= m.end,
        offsets@.len() == l@.len() + 1,
        forall|i: int| 0 <= i <= l@.len() ==> #[trigger] offsets@[i] == byte_len(l@.take(i)),
    ensures
        r@ == include_view_of(l@, k as int, m.spec(), path@, web_root@, disk.known()),
{
    let kind = if m.is_file {
        IncludeKind::File
    } else {
        IncludeKind::Virtual
    };
    let raw = string_of(l, m.path_start, m.path_end);
    let raw_chars = chars_of(raw.as_str());
    let resolved = resolve_include_chars(path, web_root, kind, &raw_chars, disk);
    IncludeDirective {
        kind,
        raw_path: raw,
        resolved,
        line: k as u32,
        path_span: (offsets[m.path_start], offsets[m.path_end]),
        directive_span: (offsets[m.start], offsets[m.end]),
    }
}

/// Parses the include directives and definitions of `text`, the contents of
/// `path`; includes resolve against the files of `disk`, `virtual=` paths
/// against `web_root`.
pub fn parse_file(text: &str, path: &str, web_root: &str, disk: &Disk) -> (index: FileIndex)
    ensures
        index@ == parse_spec(text@, path@, web_root@, disk.known()),
{
    let total = str_byte_len(text);
    let ls = split_lines(text);
    let ghost lv = lines(text@);
    let p = chars_of(path);
    let w = chars_of(web_root);
    let mut includes: Vec<IncludeDirective> = Vec::new();
    let mut symbols: Vec<SymbolDef> = Vec::new();
    let mut k: usize = 0;
    while k < ls.len()
        invariant
            k <= ls@.len(),
            views_of(ls@) == lv,
            lv == lines(text@),
            byte_len(text@) <= usize::MAX,
            p@ == path@,
            w@ == web_root@,
            includes_view(includes@) == file_includes(lv.take(k as int), path@, web_root@, disk.known()),
            symbols_view(symbols@) == file_symbols(lv.take(k as int)),
        decreases ls@.len() - k,
    {
        let l = &ls[k];
        proof {
            assert(lv[k as int] == l@);
            lemma_lines_bytes(text@, k as int);
            assert(lv.take(k + 1).drop_last() =~= lv.take(k as int));
            assert(lv.take(k + 1).last() == l@);
        }
        let offsets = byte_offsets(l);
        let spans = include_spans(l);
        let ghost before = includes_view(includes@);
        let ghost ms = include_matches(l@, 0);
        let mut j: usize = 0;
        while j < spans.len()
            invariant
                j <= spans@.len(),
                spans_spec(spans@) == ms,
                ms == include_matches(l@, 0),
                forall|q: int|
                    0 <= q < spans@.len() ==> (#[trigger] spans@[q]).path_start <= spans@[q].path_end
                        <= spans@[q].end <= l@.len() && spans@[q].start < spans@[q].end,
                offsets@.len() == l@.len() + 1,
                forall|i: int| 0 <= i <= l@.len() ==> #[trigger] offsets@[i] == byte_len(l@.take(i)),
                p@ == path@,
                w@ == web_root@,
                includes_view(includes@) == before + line_includes(l@, k as int, path@, web_root@, disk.known()).take(j as int),
            decreases spans@.len() - j,
        {
            let d = include_directive_of(l, k, &spans[j], &offsets, &p, &w, disk);
            let ghost old_inc = includes@;
            includes.push(d);
            proof {
                assert(ms[j as int] == spans@[j as int].spec());
                assert(line_includes(l@, k as int, path@, web_root@, disk.known()).take(j + 1) =~= line_includes(
                    l@,
                    k as int,
                    path@,
                    web_root@,
                    disk.known(),
                ).take(j as int).push(d@));
                assert(includes_view(includes@) =~= includes_view(old_inc).push(d@));
            }
            j += 1;
        }
        proof {
            assert(line_includes(l@, k as int, path@, web_root@, disk.known()).take(j as int) =~= line_includes(
                l@,
                k as int,
                path@,
                web_root@,
                disk.known(),
            ));
            assert(includes_view(includes@) =~= file_includes(lv.take(k + 1), path@, web_root@, disk.known()));
        }
        match definition_on_line(l) {
            Some((kind, s, e)) => {
                let name = string_of(l, s, e);
                let (a, b) = trim_bounds(l);
                let signature = string_of(l, a, b);
                let sym = SymbolDef {
                    name,
                    kind,
                    line: k as u32,
                    name_span: (offsets[s], offsets[e]),
                    signature,
                };
                let ghost old_sym = symbols@;
                symbols.push(sym);
                proof {
                    assert(symbols_view(symbols@) =~= symbols_view(old_sym).push(sym@));
                    assert(line_symbol(l@, k as int) == Some(sym@));
                }
            },
            None => {
            },
        }
        k += 1;
    }
    proof {
        assert(lv.take(ls@.len() as int) =~= lv);
    }
    FileIndex { includes, symbols }
}

} // verus!
