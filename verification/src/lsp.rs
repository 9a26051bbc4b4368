//! The answers of the language server: go to definition, find references,
//! hover, workspace symbols and include diagnostics, and the state changes
//! that document notifications make.

use vstd::prelude::*;
use crate::builtins::{ado_member_doc, ado_member_doc_spec, member_doc, member_doc_spec, object_doc, object_doc_spec};
use crate::closure::{find_definitions_spec, includers_spec};
use crate::files::{keys_of, lookup, upsert};
use crate::location::{line_at, never_absolute, path_to_uri, url_flags, Location};
use crate::parse::{includes_view, symbols_view, FileIndexView, IncludeView, SymbolKind, SymbolView};
use crate::paths::{string_from_chars, strip_prefix_chars, strip_prefix_spec};
use crate::position::{byte_at_col, span_range_spec, span_to_range, utf16_col_to_byte, word_at, word_at_spec, Position, Range};
use crate::state::{include_pairs_view, State, symbol_pairs_view};
use crate::text::{ascii_lower_seq, chars_of, lines, to_ascii_lowercase};

verus! {

/// The line the cursor is on: line `pos.line` of the text of `path`.
pub open spec fn position_line_spec(s: State, path: Seq<char>, pos: Position) -> Option<Seq<char>> {
    match s.text_spec(path) {
        Some(t) => if (pos.line as int) < lines(t).len() {
            Some(lines(t)[pos.line as int])
        } else {
            None
        },
        None => None,
    }
}

/// The text of the line the cursor is on.
pub fn position_line(state: &State, path: &String, pos: Position) -> (r: Option<String>)
    ensures
        match r {
            Some(l) => position_line_spec(*state, path@, pos) == Some(l@),
            None => position_line_spec(*state, path@, pos) is None,
        },
{
    match state.text_of(path) {
        Some(text) => line_at(text.as_str(), pos.line as usize),
        None => None,
    }
}

/// The span of a directive that triggers go-to-definition: the quoted path
/// for clients that support links, the whole directive otherwise.
pub open spec fn trigger_span(inc: IncludeView, link: bool) -> (usize, usize) {
    if link {
        inc.path_span
    } else {
        inc.directive_span
    }
}

/// The first directive on line `line` whose trigger span holds byte offset `b`.
pub open spec fn include_hit(incs: Seq<IncludeView>, line: u32, b: int, link: bool) -> Option<IncludeView>
    decreases incs.len(),
{
    if incs.len() == 0 {
        None
    } else if incs[0].line == line && trigger_span(incs[0], link).0 <= b && b <= trigger_span(incs[0], link).1 {
        Some(incs[0])
    } else {
        include_hit(incs.drop_first(), line, b, link)
    }
}

/// A range covering nothing at the start of a file.
pub open spec fn start_range() -> Range {
    Range { start: Position { line: 0, character: 0 }, end: Position { line: 0, character: 0 } }
}

pub fn file_start_range() -> (r: Range)
    ensures
        r == start_range(),
{
    Range { start: Position { line: 0, character: 0 }, end: Position { line: 0, character: 0 } }
}

/// Where the definitions `defs` stand, skipping the one on the cursor's own
/// line of `path` and those whose file has no such line.
pub open spec fn definition_locations(s: State, path: Seq<char>, line: u32, defs: Seq<(Seq<char>, SymbolView)>) -> Seq<(Seq<char>, Range)>
    decreases defs.len(),
{
    if defs.len() == 0 {
        Seq::empty()
    } else {
        let before = definition_locations(s, path, line, defs.drop_last());
        let (file, sym) = defs.last();
        if file == path && sym.line == line {
            before
        } else {
            match s.text_spec(file) {
                Some(t) => if (sym.line as int) < lines(t).len() {
                    before.push((file, span_range_spec(sym.line, lines(t)[sym.line as int], sym.name_span)))
                } else {
                    before
                },
                None => before,
            }
        }
    }
}

/// What go-to-definition finds, before files are turned into URLs.
pub enum DefinitionPlan {
    /// Nothing to go to.
    Nothing,
    /// The cursor is on an include directive that resolves to `target`;
    /// `origin` is the range to underline, for clients that support links.
    Include { target: String, origin: Option<Range> },
    /// The definitions of the identifier under the cursor.
    Symbols(Vec<(String, Range)>),
}

pub enum DefinitionPlanView {
    Nothing,
    Include(Seq<char>, Option<Range>),
    Symbols(Seq<(Seq<char>, Range)>),
}

pub open spec fn located_view(v: Seq<(String, Range)>) -> Seq<(Seq<char>, Range)> {
    v.map_values(|e: (String, Range)| (e.0@, e.1))
}

impl DefinitionPlan {
    pub open spec fn view(&self) -> DefinitionPlanView {
        match self {
            DefinitionPlan::Nothing => DefinitionPlanView::Nothing,
            DefinitionPlan::Include { target, origin } => DefinitionPlanView::Include(target@, *origin),
            DefinitionPlan::Symbols(v) => DefinitionPlanView::Symbols(located_view(v@)),
        }
    }
}

pub open spec fn definition_plan_spec(s: State, path: Seq<char>, pos: Position) -> DefinitionPlanView {
    match position_line_spec(s, path, pos) {
        None => DefinitionPlanView::Nothing,
        Some(l) => {
            let hit = match lookup(s.index_spec(), path) {
                Some(fi) => include_hit(fi.includes, pos.line, byte_at_col(l, pos.character), s.link_support()),
                None => None,
            };
            match hit {
                Some(inc) => match inc.resolved {
                    None => DefinitionPlanView::Nothing,
                    Some(t) => DefinitionPlanView::Include(
                        t,
                        if s.link_support() {
                            Some(span_range_spec(inc.line, l, inc.path_span))
                        } else {
                            None
                        },
                    ),
                },
                None => match word_at_spec(l, pos.character) {
                    None => DefinitionPlanView::Nothing,
                    Some((w, _)) => DefinitionPlanView::Symbols(
                        definition_locations(s, path, pos.line, find_definitions_spec(s.index_spec(), path, w)),
                    ),
                },
            }
        },
    }
}

/// Where go-to-definition at `pos` in `path` leads: on an include directive,
/// the included file; on an identifier, its `Sub` / `Function` / `Class` /
/// `Property` definitions.
pub fn definition_plan(state: &State, path: &String, pos: Position) -> (r: DefinitionPlan)
    ensures
        r.view() == definition_plan_spec(*state, path@, pos),
{
    let line = match position_line(state, path, pos) {
        Some(l) => l,
        None => return DefinitionPlan::Nothing,
    };
    if let Some(index) = state.index_of(path) {
        let byte_idx = utf16_col_to_byte(line.as_str(), pos.character);
        let link = state.links_supported();
        let ghost iv = includes_view(index.includes@);
        let mut i: usize = 0;
        proof {
            assert(iv.subrange(0, iv.len() as int) =~= iv);
        }
        while i < index.includes.len()
            invariant
                i <= index.includes@.len(),
                iv == includes_view(index.includes@),
                position_line_spec(*state, path@, pos) == Some(line@),
                lookup(state.index_spec(), path@) == Some(index@),
                link == state.link_support(),
                byte_idx == byte_at_col(line@, pos.character),
                include_hit(iv.subrange(i as int, iv.len() as int), pos.line, byte_idx as int, link)
                    == include_hit(iv, pos.line, byte_idx as int, link),
            decreases index.includes@.len() - i,
        {
            let inc = &index.includes[i];
            proof {
                let rest = iv.subrange(i as int, iv.len() as int);
                assert(rest[0] == inc@);
                assert(rest.drop_first() =~= iv.subrange(i + 1, iv.len() as int));
            }
            let span = if link {
                inc.path_span
            } else {
                inc.directive_span
            };
            if inc.line == pos.line && byte_idx >= span.0 && byte_idx <= span.1 {
                proof {
                    let rest = iv.subrange(i as int, iv.len() as int);
                    assert(include_hit(rest, pos.line, byte_idx as int, link) == Some(inc@));
                }
                return match &inc.resolved {
                    None => DefinitionPlan::Nothing,
                    Some(target) => DefinitionPlan::Include {
                        target: target.clone(),
                        origin: if link {
                            Some(span_to_range(inc.line, line.as_str(), inc.path_span))
                        } else {
                            None
                        },
                    },
                };
            }
            i += 1;
        }
        proof {
            assert(iv.subrange(i as int, iv.len() as int) =~= Seq::<IncludeView>::empty());
        }
    }
    let word = match word_at(line.as_str(), pos.character) {
        Some((w, _)) => w,
        None => return DefinitionPlan::Nothing,
    };
    let defs = state.find_definitions(path, word.as_str());
    let ghost dv = symbol_pairs_view(defs@);
    let mut out: Vec<(String, Range)> = Vec::new();
    let mut k: usize = 0;
    proof {
        assert(dv.take(0) =~= Seq::<(Seq<char>, SymbolView)>::empty());
        assert(located_view(out@) =~= Seq::<(Seq<char>, Range)>::empty());
    }
    while k < defs.len()
        invariant
            k <= defs@.len(),
            dv == symbol_pairs_view(defs@),
            located_view(out@) == definition_locations(*state, path@, pos.line, dv.take(k as int)),
        decreases defs@.len() - k,
    {
        let file = &defs[k].0;
        let sym = &defs[k].1;
        proof {
            assert(dv.take(k + 1).drop_last() =~= dv.take(k as int));
            assert(dv.take(k + 1).last() == (file@, sym@));
        }
        if !(*file == *path && sym.line == pos.line) {
            match state.text_of(file) {
                Some(text) => {
                    match line_at(text.as_str(), sym.line as usize) {
                        Some(l) => {
                            let range = span_to_range(sym.line, l.as_str(), sym.name_span);
                            let ghost before = located_view(out@);
                            out.push((file.clone(), range));
                            proof {
                                assert(located_view(out@) =~= before.push((file@, range)));
                            }
                        },
                        None => {
                        },
                    }
                },
                None => {
                },
            }
        }
        k += 1;
    }
    proof {
        assert(dv.take(k as int) =~= dv);
    }
    DefinitionPlan::Symbols(out)
}

/// The entries of `v` whose flag in `keep` is set.
pub open spec fn select<A>(v: Seq<A>, keep: Seq<bool>) -> Seq<A>
    decreases v.len(),
{
    if v.len() == 0 || keep.len() == 0 {
        Seq::empty()
    } else {
        select(v.drop_last(), keep.drop_last()) + if keep.last() {
            seq![v.last()]
        } else {
            Seq::empty()
        }
    }
}

pub open spec fn locations_view(v: Seq<Location>) -> Seq<(Seq<char>, Range)> {
    v.map_values(|l: Location| (l.path@, l.range))
}

pub open spec fn location_uris(v: Seq<Location>) -> Seq<lsp_types::Url> {
    v.map_values(|l: Location| l.uri)
}

/// The URLs that entries of `uris` hold (what a missing one stands for does not matter).
pub open spec fn uri_values(uris: Seq<Option<lsp_types::Url>>) -> Seq<lsp_types::Url> {
    uris.map_values(|u: Option<lsp_types::Url>| u->0)
}

pub open spec fn located_paths(v: Seq<(Seq<char>, Range)>) -> Seq<Seq<char>> {
    v.map_values(|e: (Seq<char>, Range)| e.0)
}

/// `uris` may be what `path_to_uri` gives for `paths`: one entry per path,
/// none for a path that no platform takes as absolute.
pub open spec fn possible_urls(paths: Seq<Seq<char>>, uris: Seq<Option<lsp_types::Url>>) -> bool {
    &&& uris.len() == paths.len()
    &&& forall|i: int| 0 <= i < paths.len() && never_absolute(#[trigger] paths[i]) ==> uris[i] is None
}

/// The URLs of the files of `items`, in order.
pub fn urls_of(items: &Vec<(String, Range)>) -> (r: Vec<Option<lsp_types::Url>>)
    ensures
        possible_urls(located_paths(located_view(items@)), r@),
{
    let ghost ps = located_paths(located_view(items@));
    let mut r: Vec<Option<lsp_types::Url>> = Vec::new();
    let mut i: usize = 0;
    while i < items.len()
        invariant
            i <= items@.len(),
            ps == located_paths(located_view(items@)),
            r@.len() == i,
            forall|k: int| 0 <= k < i && never_absolute(#[trigger] ps[k]) ==> r@[k] is None,
        decreases items@.len() - i,
    {
        let u = path_to_uri(items[i].0.as_str());
        proof {
            assert(ps[i as int] == items@[i as int].0@);
        }
        r.push(u);
        i += 1;
    }
    r
}

/// The locations of `items` whose entry in `uris` holds a URL, in order,
/// each with that URL.
pub fn locate_with(items: &Vec<(String, Range)>, uris: &Vec<Option<lsp_types::Url>>) -> (r: Vec<Location>)
    requires
        uris@.len() == items@.len(),
    ensures
        locations_view(r@) == select(located_view(items@), url_flags(uris@)),
        location_uris(r@) == select(uri_values(uris@), url_flags(uris@)),
{
    let ghost iv = located_view(items@);
    let ghost fl = url_flags(uris@);
    let ghost uv = uri_values(uris@);
    let mut out: Vec<Location> = Vec::new();
    let mut i: usize = 0;
    proof {
        assert(locations_view(out@) =~= select(iv.take(0), fl.take(0)));
        assert(location_uris(out@) =~= select(uv.take(0), fl.take(0)));
    }
    while i < items.len()
        invariant
            i <= items@.len(),
            uris@.len() == items@.len(),
            iv == located_view(items@),
            fl == url_flags(uris@),
            uv == uri_values(uris@),
            locations_view(out@) == select(iv.take(i as int), fl.take(i as int)),
            location_uris(out@) == select(uv.take(i as int), fl.take(i as int)),
        decreases items@.len() - i,
    {
        let ghost before = locations_view(out@);
        let ghost before_uris = location_uris(out@);
        proof {
            assert(iv.take(i + 1).drop_last() =~= iv.take(i as int));
            assert(fl.take(i + 1).drop_last() =~= fl.take(i as int));
            assert(uv.take(i + 1).drop_last() =~= uv.take(i as int));
            assert(iv.take(i + 1).last() == (items@[i as int].0@, items@[i as int].1));
            assert(fl.take(i + 1).last() == (uris@[i as int] is Some));
            assert(uv.take(i + 1).last() == uris@[i as int]->0);
        }
        match &uris[i] {
            Some(u) => {
                out.push(Location { uri: u.clone(), path: items[i].0.clone(), range: items[i].1 });
                proof {
                    assert(locations_view(out@) =~= before.push(iv[i as int]));
                    assert(location_uris(out@) =~= before_uris.push(uv[i as int]));
                }
            },
            None => {},
        }
        i += 1;
    }
    proof {
        assert(iv.take(i as int) =~= iv);
        assert(fl.take(i as int) =~= fl);
        assert(uv.take(i as int) =~= uv);
    }
    out
}

/// The go-to-definition answer.
pub enum DefinitionResponse {
    Null,
    /// A link from `origin` in the requesting line to the start of `target`.
    Link { origin: Range, target: Location },
    /// The start of an included file.
    Scalar(Location),
    /// The definitions found.
    Array(Vec<Location>),
}

/// A request that cannot be answered.
pub enum QueryError {
    /// The included file has no URL.
    BadPath,
}

/// The files a go-to-definition plan leads to.
pub open spec fn plan_targets(plan: DefinitionPlanView) -> Seq<Seq<char>> {
    match plan {
        DefinitionPlanView::Nothing => Seq::empty(),
        DefinitionPlanView::Include(t, _) => seq![t],
        DefinitionPlanView::Symbols(v) => located_paths(v),
    }
}

/// Whether `r` answers a go-to-definition request whose plan is `plan`, when
/// the plan's target files have the URLs `uris`: nothing; the included file,
/// or an error when it has no URL; or the definitions whose file has a URL
/// (nothing when there is none).
pub open spec fn answers_definition(
    plan: DefinitionPlanView,
    uris: Seq<Option<lsp_types::Url>>,
    r: Result<DefinitionResponse, QueryError>,
) -> bool {
    match plan {
        DefinitionPlanView::Nothing => r matches Ok(DefinitionResponse::Null),
        DefinitionPlanView::Include(t, origin) => match uris[0] {
            None => r matches Err(QueryError::BadPath),
            Some(u) => match origin {
                Some(o) => r matches Ok(DefinitionResponse::Link { origin: o2, target }) && o2 == o && target.uri
                    == u && target.path@ == t && target.range == start_range(),
                None => r matches Ok(DefinitionResponse::Scalar(loc)) && loc.uri == u && loc.path@ == t
                    && loc.range == start_range(),
            },
        },
        DefinitionPlanView::Symbols(v) => {
            let found = select(v, url_flags(uris));
            if found.len() == 0 {
                r matches Ok(DefinitionResponse::Null)
            } else {
                r matches Ok(DefinitionResponse::Array(w)) && locations_view(w@) == found && location_uris(w@)
                    == select(uri_values(uris), url_flags(uris))
            }
        },
    }
}

/// The go-to-definition answer for `plan`, whose target files have the URLs `uris`.
pub fn definition_answer(plan: DefinitionPlan, uris: &Vec<Option<lsp_types::Url>>) -> (r: Result<
    DefinitionResponse,
    QueryError,
>)
    requires
        uris@.len() == plan_targets(plan@).len(),
    ensures
        answers_definition(plan@, uris@, r),
{
    let ghost pv = plan@;
    match plan {
        DefinitionPlan::Nothing => Ok(DefinitionResponse::Null),
        DefinitionPlan::Include { target, origin } => {
            match &uris[0] {
                None => Err(QueryError::BadPath),
                Some(u) => {
                    let loc = Location { uri: u.clone(), path: target, range: file_start_range() };
                    match origin {
                        Some(o) => Ok(DefinitionResponse::Link { origin: o, target: loc }),
                        None => Ok(DefinitionResponse::Scalar(loc)),
                    }
                },
            }
        },
        DefinitionPlan::Symbols(items) => {
            proof {
                assert(pv == DefinitionPlanView::Symbols(located_view(items@)));
            }
            let locs = locate_with(&items, uris);
            if locs.len() == 0 {
                Ok(DefinitionResponse::Null)
            } else {
                Ok(DefinitionResponse::Array(locs))
            }
        },
    }
}

/// The URLs of the files `plan` leads to.
fn plan_urls(plan: &DefinitionPlan) -> (r: Vec<Option<lsp_types::Url>>)
    ensures
        possible_urls(plan_targets(plan@), r@),
{
    match plan {
        DefinitionPlan::Nothing => Vec::new(),
        DefinitionPlan::Include { target, origin } => {
            let mut r: Vec<Option<lsp_types::Url>> = Vec::new();
            r.push(path_to_uri(target.as_str()));
            proof {
                assert(plan_targets(plan@) == seq![target@]);
                assert(plan_targets(plan@)[0] == target@);
            }
            r
        },
        DefinitionPlan::Symbols(items) => urls_of(items),
    }
}

/// The go-to-definition answer at `pos` in `path`.
pub fn definition(state: &State, path: &String, pos: Position) -> (r: Result<DefinitionResponse, QueryError>)
    ensures
        exists|uris: Seq<Option<lsp_types::Url>>|
            possible_urls(plan_targets(definition_plan_spec(*state, path@, pos)), uris) && #[trigger] answers_definition(
                definition_plan_spec(*state, path@, pos),
                uris,
                r,
            ),
{
    let plan = definition_plan(state, path, pos);
    let uris = plan_urls(&plan);
    definition_answer(plan, &uris)
}

/// The file whose includers a reference search lists: the target of the last
/// resolved directive on line `line` whose span holds byte offset `b`, or `default`.
pub open spec fn reference_target(incs: Seq<IncludeView>, line: u32, b: int, default: Seq<char>) -> Seq<char>
    decreases incs.len(),
{
    if incs.len() == 0 {
        default
    } else {
        let last = incs.last();
        if last.line == line && last.directive_span.0 <= b && b <= last.directive_span.1
            && last.resolved is Some {
            last.resolved.unwrap()
        } else {
            reference_target(incs.drop_last(), line, b, default)
        }
    }
}

/// Where the directives of `refs` stand, skipping those whose file has no such line.
pub open spec fn reference_locations(s: State, refs: Seq<(Seq<char>, IncludeView)>) -> Seq<(Seq<char>, Range)>
    decreases refs.len(),
{
    if refs.len() == 0 {
        Seq::empty()
    } else {
        let before = reference_locations(s, refs.drop_last());
        let (file, inc) = refs.last();
        match s.text_spec(file) {
            Some(t) => if (inc.line as int) < lines(t).len() {
                before.push((file, span_range_spec(inc.line, lines(t)[inc.line as int], inc.directive_span)))
            } else {
                before
            },
            None => before,
        }
    }
}

/// What find-references lists at `pos` in `path`: on an include directive,
/// the directives that include the same target; anywhere else, the
/// directives that include `path`. None when the cursor's line does not exist.
pub open spec fn references_plan_spec(s: State, path: Seq<char>, pos: Position) -> Option<Seq<(Seq<char>, Range)>> {
    match position_line_spec(s, path, pos) {
        None => None,
        Some(l) => {
            let target = match lookup(s.index_spec(), path) {
                Some(fi) => reference_target(fi.includes, pos.line, byte_at_col(l, pos.character), path),
                None => path,
            };
            Some(reference_locations(s, includers_spec(s.index_spec(), target)))
        },
    }
}

/// The locations that find-references lists, before files are turned into URLs.
pub fn references_plan(state: &State, path: &String, pos: Position) -> (r: Option<Vec<(String, Range)>>)
    ensures
        match r {
            Some(v) => references_plan_spec(*state, path@, pos) == Some(located_view(v@)),
            None => references_plan_spec(*state, path@, pos) is None,
        },
{
    let line = match position_line(state, path, pos) {
        Some(l) => l,
        None => return None,
    };
    let mut target = path.clone();
    if let Some(index) = state.index_of(path) {
        let byte_idx = utf16_col_to_byte(line.as_str(), pos.character);
        let ghost iv = includes_view(index.includes@);
        let mut i: usize = 0;
        proof {
            assert(iv.take(0) =~= Seq::<IncludeView>::empty());
        }
        while i < index.includes.len()
            invariant
                i <= index.includes@.len(),
                iv == includes_view(index.includes@),
                target@ == reference_target(iv.take(i as int), pos.line, byte_idx as int, path@),
            decreases index.includes@.len() - i,
        {
            let inc = &index.includes[i];
            proof {
                assert(iv.take(i + 1).drop_last() =~= iv.take(i as int));
                assert(iv.take(i + 1).last() == inc@);
            }
            if inc.line == pos.line && byte_idx >= inc.directive_span.0 && byte_idx <= inc.directive_span.1 {
                if let Some(resolved) = &inc.resolved {
                    target = resolved.clone();
                }
            }
            i += 1;
        }
        proof {
            assert(iv.take(i as int) =~= iv);
        }
    }
    let refs = state.includers_of(&target);
    let ghost rv = include_pairs_view(refs@);
    let mut out: Vec<(String, Range)> = Vec::new();
    let mut k: usize = 0;
    proof {
        assert(rv.take(0) =~= Seq::<(Seq<char>, IncludeView)>::empty());
        assert(located_view(out@) =~= Seq::<(Seq<char>, Range)>::empty());
    }
    while k < refs.len()
        invariant
            k <= refs@.len(),
            rv == include_pairs_view(refs@),
            located_view(out@) == reference_locations(*state, rv.take(k as int)),
        decreases refs@.len() - k,
    {
        let file = &refs[k].0;
        let inc = &refs[k].1;
        proof {
            assert(rv.take(k + 1).drop_last() =~= rv.take(k as int));
            assert(rv.take(k + 1).last() == (file@, inc@));
        }
        if let Some(text) = state.text_of(file) {
            if let Some(l) = line_at(text.as_str(), inc.line as usize) {
                let range = span_to_range(inc.line, l.as_str(), inc.directive_span);
                let ghost before = located_view(out@);
                out.push((file.clone(), range));
                proof {
                    assert(located_view(out@) =~= before.push((file@, range)));
                }
            }
        }
        k += 1;
    }
    proof {
        assert(rv.take(k as int) =~= rv);
    }
    Some(out)
}

/// Whether `r` answers a find-references request whose plan is `plan`, when
/// the files of the planned locations have the URLs `uris`: the locations
/// whose file has a URL, or none when the cursor's line does not exist.
pub open spec fn answers_references(
    plan: Option<Seq<(Seq<char>, Range)>>,
    uris: Seq<Option<lsp_types::Url>>,
    r: Option<Vec<Location>>,
) -> bool {
    match plan {
        Some(v) => r matches Some(w) && locations_view(w@) == select(v, url_flags(uris)) && location_uris(w@)
            == select(uri_values(uris), url_flags(uris)),
        None => r is None,
    }
}

/// The find-references answer at `pos` in `path`; none when the cursor's line
/// does not exist.
pub fn references(state: &State, path: &String, pos: Position) -> (r: Option<Vec<Location>>)
    ensures
        exists|uris: Seq<Option<lsp_types::Url>>|
            #[trigger] answers_references(references_plan_spec(*state, path@, pos), uris, r) && match references_plan_spec(
                *state,
                path@,
                pos,
            ) {
                Some(v) => possible_urls(located_paths(v), uris),
                None => true,
            },
{
    match references_plan(state, path, pos) {
        Some(items) => {
            let uris = urls_of(&items);
            let r = Some(locate_with(&items, &uris));
            proof {
                assert(answers_references(references_plan_spec(*state, path@, pos), uris@, r));
            }
            r
        },
        None => {
            let r: Option<Vec<Location>> = None;
            proof {
                assert(answers_references(references_plan_spec(*state, path@, pos), Seq::empty(), r));
            }
            r
        },
    }
}

/// How a user definition is shown on hover: its definition line as VBScript
/// code, and the file it is in.
pub open spec fn definition_hover(signature: Seq<char>, origin: Seq<char>) -> Seq<char> {
    "```vbscript\n"@ + signature + "\n```\n\n_defined in "@ + origin + "_"@
}

/// A file as hover names it: relative to the workspace root when inside it.
pub open spec fn origin_spec(file: Seq<char>, root: Seq<char>) -> Seq<char> {
    match strip_prefix_spec(file, root) {
        Some(rel) => rel,
        None => file,
    }
}

/// The hover text at `pos` in `path`: docs of an intrinsic object or member,
/// of a distinctive ADO member, or the definition line of a user definition.
pub open spec fn hover_spec(s: State, path: Seq<char>, pos: Position) -> Option<Seq<char>> {
    match position_line_spec(s, path, pos) {
        None => None,
        Some(l) => match word_at_spec(l, pos.character) {
            None => None,
            Some((w, q)) => {
                let builtin = match q {
                    Some(qualifier) => match member_doc_spec(qualifier, w) {
                        Some(d) => Some(d),
                        None => ado_member_doc_spec(w),
                    },
                    None => object_doc_spec(w),
                };
                match builtin {
                    Some(d) => Some(d),
                    None => {
                        let defs = find_definitions_spec(s.index_spec(), path, w);
                        if defs.len() > 0 {
                            Some(definition_hover(defs[0].1.signature, origin_spec(defs[0].0, s.root_view())))
                        } else {
                            None
                        }
                    },
                }
            },
        },
    }
}

pub fn hover(state: &State, path: &String, pos: Position) -> (r: Option<String>)
    ensures
        match r {
            Some(h) => hover_spec(*state, path@, pos) == Some(h@),
            None => hover_spec(*state, path@, pos) is None,
        },
{
    let line = match position_line(state, path, pos) {
        Some(l) => l,
        None => return None,
    };
    let (word, qualifier) = match word_at(line.as_str(), pos.character) {
        Some(wq) => wq,
        None => return None,
    };
    let builtin = match &qualifier {
        Some(q) => match member_doc(q.as_str(), word.as_str()) {
            Some(d) => Some(d),
            None => ado_member_doc(word.as_str()),
        },
        None => object_doc(word.as_str()),
    };
    if builtin.is_some() {
        return builtin;
    }
    let defs = state.find_definitions(path, word.as_str());
    if defs.len() == 0 {
        return None;
    }
    proof {
        assert(symbol_pairs_view(defs@)[0] == (defs@[0].0@, defs@[0].1@));
    }
    let file = &defs[0].0;
    let fc = chars_of(file.as_str());
    let rc = chars_of(state.root_path().as_str());
    let origin = match strip_prefix_chars(&fc, &rc) {
        Some(rel) => string_from_chars(&rel),
        None => file.clone(),
    };
    let mut h = String::from_str("```vbscript\n");
    h.append(defs[0].1.signature.as_str());
    h.append("\n```\n\n_defined in ");
    h.append(origin.as_str());
    h.append("_");
    Some(h)
}

/// `needle` occurs in `hay`.
pub open spec fn contains_chars(hay: Seq<char>, needle: Seq<char>) -> bool {
    exists|i: int| 0 <= i && i + needle.len() <= hay.len() && #[trigger] hay.subrange(i, i + needle.len()) == needle
}

/// A symbol matches a lowercase query when the query is empty or occurs in
/// the symbol's lowercased name.
pub open spec fn query_matches(query: Seq<char>, name: Seq<char>) -> bool {
    query.len() == 0 || contains_chars(ascii_lower_seq(name), query)
}

fn contains_exec(hay: &Vec<char>, needle: &Vec<char>) -> (r: bool)
    ensures
        r == contains_chars(hay@, needle@),
{
    let hn = hay.len();
    let nn = needle.len();
    if nn == 0 {
        proof {
            let k: int = 0;
            assert(hay@.subrange(k, k + needle@.len()) =~= needle@);
        }
        return true;
    }
    if nn > hn {
        return false;
    }
    let limit = hn - nn;
    let mut i: usize = 0;
    while i <= limit
        invariant
            hn == hay@.len(),
            nn == needle@.len(),
            1 <= nn <= hn,
            limit == hn - nn,
            i <= limit + 1,
            forall|k: int| 0 <= k < i ==> #[trigger] hay@.subrange(k, k + needle@.len()) != needle@,
        decreases limit + 1 - i,
    {
        let mut j: usize = 0;
        let mut same = true;
        while j < nn
            invariant
                hn == hay@.len(),
                nn == needle@.len(),
                1 <= nn <= hn,
                i <= limit,
                limit == hn - nn,
                j <= nn,
                same == forall|m: int| 0 <= m < j ==> hay@[i + m] == needle@[m],
            decreases nn - j,
        {
            if hay[i + j] != needle[j] {
                same = false;
            }
            j += 1;
        }
        if same {
            proof {
                assert(hay@.subrange(i as int, i + needle@.len()) =~= needle@);
            }
            return true;
        }
        proof {
            let m = choose|m: int| 0 <= m < needle@.len() && hay@[i + m] != needle@[m];
            assert(hay@.subrange(i as int, i + needle@.len())[m] != needle@[m]);
        }
        i += 1;
    }
    proof {
        assert forall|k: int| 0 <= k && k + needle@.len() <= hay@.len() implies #[trigger] hay@.subrange(k, k + needle@.len()) != needle@ by {
            assert(k < i);
        }
    }
    false
}

/// The symbols of `syms` in `file` that match `query`, with where their names stand.
pub open spec fn file_symbol_items(
    s: State,
    file: Seq<char>,
    syms: Seq<SymbolView>,
    query: Seq<char>,
) -> Seq<(Seq<char>, SymbolKind, Seq<char>, Range)>
    decreases syms.len(),
{
    if syms.len() == 0 {
        Seq::empty()
    } else {
        let before = file_symbol_items(s, file, syms.drop_last(), query);
        let sym = syms.last();
        if query_matches(query, sym.name) {
            match s.text_spec(file) {
                Some(t) => if (sym.line as int) < lines(t).len() {
                    before.push((sym.name, sym.kind, file, span_range_spec(sym.line, lines(t)[sym.line as int], sym.name_span)))
                } else {
                    before
                },
                None => before,
            }
        } else {
            before
        }
    }
}

/// The symbols of every indexed file that match `query`, in index order.
pub open spec fn symbol_items(s: State, idx: Seq<(Seq<char>, FileIndexView)>, query: Seq<char>) -> Seq<(Seq<char>, SymbolKind, Seq<char>, Range)>
    decreases idx.len(),
{
    if idx.len() == 0 {
        Seq::empty()
    } else {
        symbol_items(s, idx.drop_last(), query) + file_symbol_items(s, idx.last().0, idx.last().1.symbols, query)
    }
}

/// The code of the Language Server Protocol's `SymbolKind` that a
/// definition is reported as: a `Sub` as a method (6), a `Function` as a
/// function (12), a `Class` as a class (5), a `Property` as a property (7).
pub open spec fn lsp_symbol_kind_spec(k: SymbolKind) -> i32 {
    match k {
        SymbolKind::Sub => 6,
        SymbolKind::Function => 12,
        SymbolKind::Class => 5,
        SymbolKind::Property => 7,
    }
}

pub fn lsp_symbol_kind(k: SymbolKind) -> (r: i32)
    ensures
        r == lsp_symbol_kind_spec(k),
{
    match k {
        SymbolKind::Sub => 6,
        SymbolKind::Function => 12,
        SymbolKind::Class => 5,
        SymbolKind::Property => 7,
    }
}

/// A workspace symbol: its name, kind and where its name stands.
pub struct SymbolMatch {
    pub name: String,
    pub kind: SymbolKind,
    pub location: Location,
}

pub open spec fn symbol_matches_view(v: Seq<SymbolMatch>) -> Seq<(Seq<char>, SymbolKind, Seq<char>, Range)> {
    v.map_values(|m: SymbolMatch| (m.name@, m.kind, m.location.path@, m.location.range))
}

/// At most this many workspace symbols are returned.
pub const MAX_WORKSPACE_SYMBOLS: usize = 512;

/// Whether `r` lists the first symbols of `items` whose file has a URL
/// (`keep` marks them, over the items looked at), stopping at the limit.
pub open spec fn lists_symbols(
    items: Seq<(Seq<char>, SymbolKind, Seq<char>, Range)>,
    r: Seq<(Seq<char>, SymbolKind, Seq<char>, Range)>,
    keep: Seq<bool>,
) -> bool {
    &&& keep.len() <= items.len()
    &&& r == select(items.take(keep.len() as int), keep)
    &&& r.len() <= MAX_WORKSPACE_SYMBOLS
    &&& keep.len() < items.len() ==> r.len() == MAX_WORKSPACE_SYMBOLS
}

/// The URL that `uris` gives the indexed file `p`: the entry at the place of
/// `p`'s first index entry.
pub open spec fn url_of(
    idx: Seq<(Seq<char>, FileIndexView)>,
    uris: Seq<Option<lsp_types::Url>>,
    p: Seq<char>,
) -> Option<lsp_types::Url>
    decreases idx.len(),
{
    if idx.len() == 0 || uris.len() == 0 {
        None
    } else if idx[0].0 == p {
        uris[0]
    } else {
        url_of(idx.drop_first(), uris.drop_first(), p)
    }
}

/// For each symbol item, whether `uris` gives its file a URL.
pub open spec fn symbol_url_flags(
    idx: Seq<(Seq<char>, FileIndexView)>,
    uris: Seq<Option<lsp_types::Url>>,
    items: Seq<(Seq<char>, SymbolKind, Seq<char>, Range)>,
) -> Seq<bool> {
    items.map_values(|it: (Seq<char>, SymbolKind, Seq<char>, Range)| url_of(idx, uris, it.2) is Some)
}

proof fn lemma_url_of_at(idx: Seq<(Seq<char>, FileIndexView)>, uris: Seq<Option<lsp_types::Url>>, i: int)
    requires
        keys_of(idx).no_duplicates(),
        uris.len() == idx.len(),
        0 <= i < idx.len(),
    ensures
        url_of(idx, uris, idx[i].0) == uris[i],
    decreases i,
{
    if i > 0 {
        assert(keys_of(idx)[0] != keys_of(idx)[i]);
        assert(keys_of(idx.drop_first()) =~= keys_of(idx).drop_first());
        assert(idx.drop_first()[i - 1] == idx[i]);
        lemma_url_of_at(idx.drop_first(), uris.drop_first(), i - 1);
    }
}

/// The workspace symbols whose name contains `query`, ignoring ASCII case,
/// when the indexed files have the URLs `uris` (one per index entry, in
/// index order): those whose file has a URL, with it, up to the limit.
pub fn workspace_symbol_with(state: &State, query: &str, uris: &Vec<Option<lsp_types::Url>>) -> (r: Vec<SymbolMatch>)
    requires
        state.wf(),
        uris@.len() == state.index_spec().len(),
    ensures
        exists|n: int|
            0 <= n <= symbol_items(*state, state.index_spec(), ascii_lower_seq(query@)).len()
                && #[trigger] lists_symbols(
                symbol_items(*state, state.index_spec(), ascii_lower_seq(query@)),
                symbol_matches_view(r@),
                symbol_url_flags(
                    state.index_spec(),
                    uris@,
                    symbol_items(*state, state.index_spec(), ascii_lower_seq(query@)).take(n),
                ),
            ),
        forall|j: int|
            0 <= j < r@.len() ==> url_of(state.index_spec(), uris@, (#[trigger] r@[j]).location.path@) == Some(
                r@[j].location.uri,
            ),
{
    let q = to_ascii_lowercase(query);
    let qc = chars_of(q.as_str());
    let ghost qv = ascii_lower_seq(query@);
    let ghost idx = state.index_spec();
    let ghost uv = uris@;
    let ghost all = symbol_items(*state, idx, qv);
    proof {
        state.lemma_unique_keys();
    }
    let mut out: Vec<SymbolMatch> = Vec::new();
    let ghost mut seen: Seq<(Seq<char>, SymbolKind, Seq<char>, Range)> = Seq::empty();
    let mut i: usize = 0;
    let n = state.index_len();
    proof {
        assert(idx.take(0) =~= Seq::<(Seq<char>, FileIndexView)>::empty());
        assert(symbol_matches_view(out@) =~= Seq::<(Seq<char>, SymbolKind, Seq<char>, Range)>::empty());
        assert(symbol_url_flags(idx, uv, seen) =~= Seq::<bool>::empty());
    }
    while i < n
        invariant
            i <= n == idx.len(),
            idx == state.index_spec(),
            keys_of(idx).no_duplicates(),
            uv == uris@,
            uv.len() == idx.len(),
            qc@ == qv,
            qv == ascii_lower_seq(query@),
            all == symbol_items(*state, idx, qv),
            seen == symbol_items(*state, idx.take(i as int), qv),
            symbol_matches_view(out@) == select(seen, symbol_url_flags(idx, uv, seen)),
            out@.len() < MAX_WORKSPACE_SYMBOLS,
            forall|j: int|
                0 <= j < out@.len() ==> url_of(idx, uv, (#[trigger] out@[j]).location.path@) == Some(
                    out@[j].location.uri,
                ),
        decreases n - i,
    {
        let (file, index) = state.entry(i);
        let syms = &index.symbols;
        let ghost sv = symbols_view(syms@);
        let ghost seen0 = seen;
        proof {
            assert(idx.take(i + 1).drop_last() =~= idx.take(i as int));
            assert(idx.take(i + 1).last() == (file@, index@));
            assert(sv.take(0) =~= Seq::<SymbolView>::empty());
            assert(seen0 + file_symbol_items(*state, file@, sv.take(0), qv) =~= seen0);
            lemma_url_of_at(idx, uv, i as int);
        }
        let text = state.text_of(file);
        let mut j: usize = 0;
        while j < syms.len()
            invariant
                j <= syms@.len(),
                sv == symbols_view(syms@),
                qc@ == qv,
                qv == ascii_lower_seq(query@),
                i < n == idx.len(),
                idx == state.index_spec(),
                uv == uris@,
                uv.len() == idx.len(),
                idx[i as int].0 == file@,
                idx[i as int].1.symbols == sv,
                url_of(idx, uv, file@) == uv[i as int],
                all == symbol_items(*state, idx, qv),
                seen0 == symbol_items(*state, idx.take(i as int), qv),
                opt_text_view(text) == state.text_spec(file@),
                seen == seen0 + file_symbol_items(*state, file@, sv.take(j as int), qv),
                symbol_matches_view(out@) == select(seen, symbol_url_flags(idx, uv, seen)),
                out@.len() < MAX_WORKSPACE_SYMBOLS,
                forall|k: int|
                    0 <= k < out@.len() ==> url_of(idx, uv, (#[trigger] out@[k]).location.path@) == Some(
                        out@[k].location.uri,
                    ),
            decreases syms@.len() - j,
        {
            let sym = &syms[j];
            proof {
                assert(sv.take(j + 1).drop_last() =~= sv.take(j as int));
                assert(sv.take(j + 1).last() == sym@);
            }
            let name_lower = to_ascii_lowercase(sym.name.as_str());
            let nc = chars_of(name_lower.as_str());
            let matches = qc.len() == 0 || contains_exec(&nc, &qc);
            let mut item: Option<Range> = None;
            if matches {
                if let Some(t) = &text {
                    if let Some(l) = line_at(t.as_str(), sym.line as usize) {
                        item = Some(span_to_range(sym.line, l.as_str(), sym.name_span));
                    }
                }
            }
            match item {
                Some(range) => {
                    let ghost entry = (sym.name@, sym.kind, file@, range);
                    let ghost flags0 = symbol_url_flags(idx, uv, seen);
                    proof {
                        assert(file_symbol_items(*state, file@, sv.take(j + 1), qv) == file_symbol_items(
                            *state,
                            file@,
                            sv.take(j as int),
                            qv,
                        ).push(entry));
                        assert(seen0 + file_symbol_items(*state, file@, sv.take(j + 1), qv) =~= seen.push(entry));
                        assert(symbol_url_flags(idx, uv, seen.push(entry)) =~= flags0.push(uv[i as int] is Some));
                        assert(seen.push(entry).drop_last() =~= seen);
                        assert(flags0.push(uv[i as int] is Some).drop_last() =~= flags0);
                    }
                    match &uris[i] {
                        Some(uri) => {
                            let ghost before = symbol_matches_view(out@);
                            out.push(SymbolMatch {
                                name: sym.name.clone(),
                                kind: sym.kind,
                                location: Location { uri: uri.clone(), path: file.clone(), range },
                            });
                            proof {
                                assert(symbol_matches_view(out@) =~= before.push(entry));
                                seen = seen.push(entry);
                            }
                            if out.len() >= MAX_WORKSPACE_SYMBOLS {
                                proof {
                                    lemma_items_prefix(*state, idx, qv, i as int, file@, sv, j + 1);
                                    let keep = symbol_url_flags(idx, uv, seen);
                                    assert(seen == all.take(seen.len() as int));
                                    assert(keep == symbol_url_flags(idx, uv, all.take(seen.len() as int)));
                                    assert(keep.len() == seen.len());
                                    assert(seen.len() <= all.len());
                                    assert(all.take(keep.len() as int) == seen);
                                    assert(symbol_matches_view(out@) == select(all.take(keep.len() as int), keep));
                                    assert(symbol_matches_view(out@).len() == MAX_WORKSPACE_SYMBOLS);
                                    assert(lists_symbols(all, symbol_matches_view(out@), keep));
                                }
                                return out;
                            }
                        },
                        None => {
                            proof {
                                seen = seen.push(entry);
                            }
                        },
                    }
                },
                None => {
                    proof {
                        assert(file_symbol_items(*state, file@, sv.take(j + 1), qv) == file_symbol_items(
                            *state,
                            file@,
                            sv.take(j as int),
                            qv,
                        ));
                    }
                },
            }
            j += 1;
        }
        proof {
            assert(sv.take(j as int) =~= sv);
            assert(seen =~= symbol_items(*state, idx.take(i + 1), qv));
        }
        i += 1;
    }
    proof {
        assert(idx.take(i as int) =~= idx);
        assert(all.take(all.len() as int) =~= all);
        assert(lists_symbols(all, symbol_matches_view(out@), symbol_url_flags(idx, uv, all.take(all.len() as int))));
    }
    out
}

/// The workspace symbols whose name contains `query`, ignoring ASCII case.
pub fn workspace_symbol(state: &State, query: &str) -> (r: Vec<SymbolMatch>)
    requires
        state.wf(),
    ensures
        exists|uris: Seq<Option<lsp_types::Url>>, n: int|
            possible_urls(keys_of(state.index_spec()), uris) && 0 <= n <= symbol_items(
                *state,
                state.index_spec(),
                ascii_lower_seq(query@),
            ).len() && #[trigger] lists_symbols(
                symbol_items(*state, state.index_spec(), ascii_lower_seq(query@)),
                symbol_matches_view(r@),
                symbol_url_flags(
                    state.index_spec(),
                    uris,
                    symbol_items(*state, state.index_spec(), ascii_lower_seq(query@)).take(n),
                ),
            ) && forall|j: int|
                0 <= j < r@.len() ==> url_of(state.index_spec(), uris, (#[trigger] r@[j]).location.path@) == Some(
                    r@[j].location.uri,
                ),
{
    let ghost keys = keys_of(state.index_spec());
    let mut uris: Vec<Option<lsp_types::Url>> = Vec::new();
    let mut i: usize = 0;
    while i < state.index_len()
        invariant
            i <= state.index_spec().len(),
            keys == keys_of(state.index_spec()),
            uris@.len() == i,
            forall|k: int| 0 <= k < i && never_absolute(#[trigger] keys[k]) ==> uris@[k] is None,
        decreases state.index_spec().len() - i,
    {
        let (file, _) = state.entry(i);
        proof {
            assert(keys[i as int] == file@);
        }
        uris.push(path_to_uri(file.as_str()));
        i += 1;
    }
    workspace_symbol_with(state, query, &uris)
}

pub open spec fn opt_text_view(o: Option<String>) -> Option<Seq<char>> {
    match o {
        Some(s) => Some(s@),
        None => None,
    }
}

proof fn lemma_items_prefix(
    s: State,
    idx: Seq<(Seq<char>, FileIndexView)>,
    q: Seq<char>,
    i: int,
    file: Seq<char>,
    sv: Seq<SymbolView>,
    j: int,
)
    requires
        0 <= i < idx.len(),
        idx[i].0 == file,
        idx[i].1.symbols == sv,
        0 <= j <= sv.len(),
    ensures
        (symbol_items(s, idx.take(i), q) + file_symbol_items(s, file, sv.take(j), q)).len() <= symbol_items(s, idx, q).len(),
        symbol_items(s, idx.take(i), q) + file_symbol_items(s, file, sv.take(j), q) == symbol_items(s, idx, q).take(
            (symbol_items(s, idx.take(i), q) + file_symbol_items(s, file, sv.take(j), q)).len() as int,
        ),
{
    let pre = symbol_items(s, idx.take(i), q) + file_symbol_items(s, file, sv.take(j), q);
    lemma_file_items_prefix(s, file, sv, q, j);
    assert(idx.take(i + 1).drop_last() =~= idx.take(i));
    let full_i = symbol_items(s, idx.take(i + 1), q);
    assert(full_i == symbol_items(s, idx.take(i), q) + file_symbol_items(s, file, sv, q));
    assert(full_i.take(pre.len() as int) =~= pre);
    lemma_symbol_items_prefix(s, idx, q, i + 1);
    assert(symbol_items(s, idx, q).take(pre.len() as int) =~= full_i.take(pre.len() as int));
}

proof fn lemma_file_items_prefix(s: State, file: Seq<char>, sv: Seq<SymbolView>, q: Seq<char>, j: int)
    requires
        0 <= j <= sv.len(),
    ensures
        file_symbol_items(s, file, sv.take(j), q).len() <= file_symbol_items(s, file, sv, q).len(),
        file_symbol_items(s, file, sv, q).take(file_symbol_items(s, file, sv.take(j), q).len() as int)
            == file_symbol_items(s, file, sv.take(j), q),
    decreases sv.len() - j,
{
    if j < sv.len() {
        let t = sv.drop_last();
        assert(sv.take(j) =~= t.take(j));
        lemma_file_items_prefix(s, file, t, q, j);
        let k = file_symbol_items(s, file, sv.take(j), q).len() as int;
        assert(file_symbol_items(s, file, sv, q).take(k) =~= file_symbol_items(s, file, t, q).take(k));
    } else {
        assert(sv.take(j) =~= sv);
        let f = file_symbol_items(s, file, sv, q);
        assert(f.take(f.len() as int) =~= f);
    }
}

proof fn lemma_symbol_items_prefix(s: State, idx: Seq<(Seq<char>, FileIndexView)>, q: Seq<char>, i: int)
    requires
        0 <= i <= idx.len(),
    ensures
        symbol_items(s, idx.take(i), q).len() <= symbol_items(s, idx, q).len(),
        symbol_items(s, idx, q).take(symbol_items(s, idx.take(i), q).len() as int) == symbol_items(s, idx.take(i), q),
    decreases idx.len() - i,
{
    if i < idx.len() {
        let t = idx.drop_last();
        assert(idx.take(i) =~= t.take(i));
        lemma_symbol_items_prefix(s, t, q, i);
        let k = symbol_items(s, idx.take(i), q).len() as int;
        assert(symbol_items(s, idx, q).take(k) =~= symbol_items(s, t, q).take(k));
    } else {
        assert(idx.take(i) =~= idx);
        let f = symbol_items(s, idx, q);
        assert(f.take(f.len() as int) =~= f);
    }
}

/// The text of the diagnostic for an include that does not resolve.
pub open spec fn unresolved_message(raw: Seq<char>) -> Seq<char> {
    "Cannot resolve include \""@ + raw + "\""@
}

/// A problem in a file: where it is and what it is.
pub struct Diagnostic {
    pub range: Range,
    pub message: String,
}

/// The source name diagnostics carry.
pub const DIAGNOSTIC_SOURCE: &'static str = "asp-ls";

pub open spec fn diagnostics_view(v: Seq<Diagnostic>) -> Seq<(Range, Seq<char>)> {
    v.map_values(|d: Diagnostic| (d.range, d.message@))
}

/// A warning for each include of `incs` that does not resolve, on a line of `ls`.
pub open spec fn unresolved_diagnostics(incs: Seq<IncludeView>, ls: Seq<Seq<char>>) -> Seq<(Range, Seq<char>)>
    decreases incs.len(),
{
    if incs.len() == 0 {
        Seq::empty()
    } else {
        let before = unresolved_diagnostics(incs.drop_last(), ls);
        let inc = incs.last();
        if inc.resolved is None && (inc.line as int) < ls.len() {
            before.push((span_range_spec(inc.line, ls[inc.line as int], inc.path_span), unresolved_message(inc.raw_path)))
        } else {
            before
        }
    }
}

/// The diagnostics of `path`: its includes that cannot be resolved.
pub open spec fn diagnostics_spec(s: State, path: Seq<char>) -> Seq<(Range, Seq<char>)> {
    match (lookup(s.index_spec(), path), s.text_spec(path)) {
        (Some(fi), Some(t)) => unresolved_diagnostics(fi.includes, lines(t)),
        _ => Seq::empty(),
    }
}

pub fn diagnostics(state: &State, path: &String) -> (r: Vec<Diagnostic>)
    ensures
        diagnostics_view(r@) == diagnostics_spec(*state, path@),
{
    let mut out: Vec<Diagnostic> = Vec::new();
    let index = match state.index_of(path) {
        Some(i) => i,
        None => {
            proof {
                assert(diagnostics_view(out@) =~= Seq::<(Range, Seq<char>)>::empty());
            }
            return out;
        },
    };
    let text = match state.text_of(path) {
        Some(t) => t,
        None => {
            proof {
                assert(diagnostics_view(out@) =~= Seq::<(Range, Seq<char>)>::empty());
            }
            return out;
        },
    };
    let ls = crate::text::split_lines(text.as_str());
    let ghost lv = lines(text@);
    let ghost iv = includes_view(index.includes@);
    let mut i: usize = 0;
    proof {
        assert(iv.take(0) =~= Seq::<IncludeView>::empty());
        assert(diagnostics_view(out@) =~= Seq::<(Range, Seq<char>)>::empty());
    }
    while i < index.includes.len()
        invariant
            i <= index.includes@.len(),
            iv == includes_view(index.includes@),
            crate::text::views_of(ls@) == lv,
            diagnostics_view(out@) == unresolved_diagnostics(iv.take(i as int), lv),
        decreases index.includes@.len() - i,
    {
        let inc = &index.includes[i];
        proof {
            assert(iv.take(i + 1).drop_last() =~= iv.take(i as int));
            assert(iv.take(i + 1).last() == inc@);
        }
        if inc.resolved.is_none() && (inc.line as usize) < ls.len() {
            proof {
                assert(lv[inc.line as int] == ls@[inc.line as int]@);
            }
            let l = string_from_chars(&ls[inc.line as usize]);
            let range = span_to_range(inc.line, l.as_str(), inc.path_span);
            let mut message = String::from_str("Cannot resolve include \"");
            message.append(inc.raw_path.as_str());
            message.append("\"");
            let ghost before = diagnostics_view(out@);
            let ghost mv = message@;
            out.push(Diagnostic { range, message });
            proof {
                assert(diagnostics_view(out@) =~= before.push((range, mv)));
            }
        }
        i += 1;
    }
    proof {
        assert(iv.take(i as int) =~= iv);
    }
    out
}

/// A notification about an open document.
pub enum DocumentEvent {
    Opened { path: String, text: String },
    /// The document changed; `text` is its full new text, if the change carried one.
    Changed { path: String, text: Option<String> },
    Saved { path: String },
    Closed { path: String },
}

/// Applies a document notification to the state; returns whether the
/// diagnostics of the document should be published again.
pub fn apply_document_event(state: &mut State, event: DocumentEvent) -> (republish: bool)
    requires
        old(state).wf(),
    ensures
        final(state).wf(),
        final(state).disk_spec() == old(state).disk_spec(),
        final(state).web_root_view() == old(state).web_root_view(),
        final(state).root_view() == old(state).root_view(),
        final(state).link_support() == old(state).link_support(),
        match event {
            DocumentEvent::Opened { path, text } => republish && final(state).overlays_spec() == upsert(
                old(state).overlays_spec(),
                path@,
                text@,
            ) && final(state).index_spec() == upsert(
                old(state).index_spec(),
                path@,
                old(state).index_for(path@, text@),
            ),
            DocumentEvent::Changed { path, text } => match text {
                Some(t) => republish && final(state).overlays_spec() == upsert(
                    old(state).overlays_spec(),
                    path@,
                    t@,
                ) && final(state).index_spec() == upsert(
                    old(state).index_spec(),
                    path@,
                    old(state).index_for(path@, t@),
                ),
                None => !republish && final(state).overlays_spec() == old(state).overlays_spec()
                    && final(state).index_spec() == old(state).index_spec(),
            },
            DocumentEvent::Saved { path } => republish && final(state).overlays_spec() == old(
                state,
            ).overlays_spec() && final(state).index_spec() == old(state).reindexed(path@),
            DocumentEvent::Closed { path } => republish && final(state).overlays_spec() == old(
                state,
            ).overlays_spec().filter(|e: (Seq<char>, Seq<char>)| e.0 != path@)
                && final(state).index_spec() == final(state).reindexed_from(old(state).index_spec(), path@),
        },
{
    match event {
        DocumentEvent::Opened { path, text } => {
            open_text(state, path, text);
            true
        },
        DocumentEvent::Changed { path, text } => match text {
            Some(t) => {
                open_text(state, path, t);
                true
            },
            None => false,
        },
        DocumentEvent::Saved { path } => {
            state.reindex(&path);
            true
        },
        DocumentEvent::Closed { path } => {
            state.remove_overlay(&path);
            state.reindex(&path);
            true
        },
    }
}

fn open_text(state: &mut State, path: String, text: String)
    requires
        old(state).wf(),
    ensures
        final(state).wf(),
        final(state).disk_spec() == old(state).disk_spec(),
        final(state).web_root_view() == old(state).web_root_view(),
        final(state).root_view() == old(state).root_view(),
        final(state).link_support() == old(state).link_support(),
        final(state).overlays_spec() == upsert(old(state).overlays_spec(), path@, text@),
        final(state).index_spec() == upsert(old(state).index_spec(), path@, old(state).index_for(path@, text@)),
{
    let ghost pv = path@;
    let ghost tv = text@;
    let key = path.clone();
    state.set_overlay(path, text);
    proof {
        crate::files::lemma_lookup_upsert(old(state).overlays_spec(), pv, tv);
        assert(state.text_spec(pv) == Some(tv));
    }
    state.reindex(&key);
}

} // verus!
