//! What the editor requests answer, stated over the index and the texts the
//! server holds: which definitions go-to-definition lists, which file a
//! reference search looks for, what hover shows, which includes get a
//! diagnostic, and which symbols a workspace search lists.

use vstd::prelude::*;
use crate::builtins::{ado_member_doc_spec, member_doc_spec, object_doc_spec};
use crate::closure::{find_definitions_spec, includers_spec};
use crate::files::lookup;
use crate::laws::{count_true, law_workspace_symbol_count};
use crate::lsp::{
    definition_hover, definition_locations, definition_plan_spec, diagnostics_spec, file_symbol_items, hover_spec,
    lists_symbols, origin_spec, position_line_spec, query_matches, reference_locations, reference_target,
    references_plan_spec, select, symbol_items, symbol_url_flags, unresolved_diagnostics, unresolved_message,
    url_of, DefinitionPlanView, MAX_WORKSPACE_SYMBOLS,
};
use crate::parse::{FileIndexView, IncludeView, SymbolKind, SymbolView};
use crate::position::{byte_at_col, span_range_spec, word_at_spec, Position, Range};
use crate::state::State;
use crate::text::lines;

verus! {

/// The word under column `col` of line `l` (empty when there is none).
pub open spec fn cursor_word(l: Seq<char>, col: u32) -> Seq<char> {
    match word_at_spec(l, col) {
        Some((w, _)) => w,
        None => Seq::empty(),
    }
}

/// The qualifier of the word under column `col` of line `l`.
pub open spec fn cursor_qualifier(l: Seq<char>, col: u32) -> Option<Seq<char>> {
    match word_at_spec(l, col) {
        Some((_, q)) => q,
        None => None,
    }
}

/// The include directives of `path` in the index (none when it is not indexed).
pub open spec fn includes_of(s: State, path: Seq<char>) -> Seq<IncludeView> {
    match lookup(s.index_spec(), path) {
        Some(fi) => fi.includes,
        None => Seq::empty(),
    }
}

/// Where definition `d` stands in its file's text, when that file has a text
/// holding the definition's line.
pub open spec fn definition_site(s: State, d: (Seq<char>, SymbolView)) -> Option<(Seq<char>, Range)> {
    match s.text_spec(d.0) {
        Some(t) => if (d.1.line as int) < lines(t).len() {
            Some((d.0, span_range_spec(d.1.line, lines(t)[d.1.line as int], d.1.name_span)))
        } else {
            None
        },
        None => None,
    }
}

/// Definition `d` is the one the cursor stands on: in `path`, on `line`.
pub open spec fn on_cursor(d: (Seq<char>, SymbolView), path: Seq<char>, line: u32) -> bool {
    d.0 == path && d.1.line == line
}

proof fn lemma_definition_locations(s: State, path: Seq<char>, line: u32, defs: Seq<(Seq<char>, SymbolView)>) -> (at: Seq<int>)
    ensures
        forall|i: int|
            0 <= i < defs.len() && !on_cursor(#[trigger] defs[i], path, line) && definition_site(s, defs[i]) is Some
                ==> definition_locations(s, path, line, defs).contains(definition_site(s, defs[i])->0),
        at.len() == definition_locations(s, path, line, defs).len(),
        forall|j: int|
            0 <= j < at.len() ==> 0 <= #[trigger] at[j] < defs.len() && !on_cursor(defs[at[j]], path, line)
                && definition_site(s, defs[at[j]]) == Some(definition_locations(s, path, line, defs)[j]),
        forall|j: int, k: int| 0 <= j < k < at.len() ==> at[j] < at[k],
    decreases defs.len(),
{
    if defs.len() == 0 {
        Seq::empty()
    } else {
        let d = defs.drop_last();
        let a0 = lemma_definition_locations(s, path, line, d);
        let before = definition_locations(s, path, line, d);
        let all = definition_locations(s, path, line, defs);
        let last = defs.last();
        assert(defs[defs.len() - 1] == last);
        assert forall|i: int| 0 <= i < d.len() implies d[i] == defs[i] by {}
        assert forall|i: int|
            0 <= i < defs.len() && !on_cursor(#[trigger] defs[i], path, line) && definition_site(s, defs[i]) is Some
                implies all.contains(definition_site(s, defs[i])->0) by {
            if i < d.len() {
                let k = choose|k: int| 0 <= k < before.len() && before[k] == definition_site(s, d[i])->0;
                assert(all[k] == before[k]);
            } else {
                assert(all[all.len() - 1] == definition_site(s, last)->0);
            }
        }
        if all.len() == before.len() {
            assert(all =~= before);
            a0
        } else {
            let at = a0.push(defs.len() - 1);
            assert forall|j: int| 0 <= j < at.len() implies 0 <= #[trigger] at[j] < defs.len() && !on_cursor(
                defs[at[j]],
                path,
                line,
            ) && definition_site(s, defs[at[j]]) == Some(all[j]) by {
                if j < a0.len() {
                    assert(all[j] == before[j]);
                }
            }
            at
        }
    }
}

/// Go-to-definition on an identifier (no include directive under the
/// cursor) lists where the definitions found for the word stand: every one
/// whose file's text holds its line, except the one the cursor stands on
/// (in the requesting file, on the cursor's line); definitions elsewhere in
/// the requesting file are listed too. Nothing else is listed: `at[j]` is
/// the place among the definitions found of the one the `j`-th location
/// shows, in the order they were found.
pub proof fn law_definition_lists_found_definitions(s: State, path: Seq<char>, pos: Position, l: Seq<char>) -> (at: Seq<int>)
    requires
        position_line_spec(s, path, pos) == Some(l),
        word_at_spec(l, pos.character) is Some,
        forall|i: int|
            0 <= i < includes_of(s, path).len() ==> !({
                let inc = #[trigger] includes_of(s, path)[i];
                let sp = if s.link_support() {
                    inc.path_span
                } else {
                    inc.directive_span
                };
                inc.line == pos.line && sp.0 <= byte_at_col(l, pos.character) && byte_at_col(l, pos.character) <= sp.1
            }),
    ensures
        ({
            let defs = find_definitions_spec(s.index_spec(), path, cursor_word(l, pos.character));
            let locs = definition_plan_spec(s, path, pos)->Symbols_0;
            &&& definition_plan_spec(s, path, pos) is Symbols
            &&& forall|i: int|
                0 <= i < defs.len() && !on_cursor(#[trigger] defs[i], path, pos.line) && definition_site(s, defs[i]) is Some
                    ==> locs.contains(definition_site(s, defs[i])->0)
            &&& at.len() == locs.len()
            &&& forall|j: int|
                0 <= j < at.len() ==> 0 <= #[trigger] at[j] < defs.len() && !on_cursor(defs[at[j]], path, pos.line)
                    && definition_site(s, defs[at[j]]) == Some(locs[j])
            &&& forall|j: int, k: int| 0 <= j < k < at.len() ==> at[j] < at[k]
        }),
{
    let b = byte_at_col(l, pos.character);
    match lookup(s.index_spec(), path) {
        Some(fi) => {
            assert(includes_of(s, path) == fi.includes);
            lemma_no_include_hit(fi.includes, pos.line, b, s.link_support());
        },
        None => {},
    }
    let w = cursor_word(l, pos.character);
    let defs = find_definitions_spec(s.index_spec(), path, w);
    let at = lemma_definition_locations(s, path, pos.line, defs);
    assert(definition_plan_spec(s, path, pos) == DefinitionPlanView::Symbols(definition_locations(s, path, pos.line, defs)));
    at
}

proof fn lemma_no_include_hit(incs: Seq<IncludeView>, line: u32, b: int, link: bool)
    requires
        forall|i: int|
            0 <= i < incs.len() ==> !({
                let inc = #[trigger] incs[i];
                let sp = if link {
                    inc.path_span
                } else {
                    inc.directive_span
                };
                inc.line == line && sp.0 <= b && b <= sp.1
            }),
    ensures
        crate::lsp::include_hit(incs, line, b, link) is None,
    decreases incs.len(),
{
    if incs.len() > 0 {
        assert forall|i: int| 0 <= i < incs.drop_first().len() implies !({
            let inc = #[trigger] incs.drop_first()[i];
            let sp = if link {
                inc.path_span
            } else {
                inc.directive_span
            };
            inc.line == line && sp.0 <= b && b <= sp.1
        }) by {
            assert(incs.drop_first()[i] == incs[i + 1]);
        }
        assert(incs[0] == incs[0]);
        lemma_no_include_hit(incs.drop_first(), line, b, link);
    }
}

/// A directive that redirects a reference search: it stands on `line`, its
/// whole span holds byte offset `b`, and it resolves.
pub open spec fn redirects(inc: IncludeView, line: u32, b: int) -> bool {
    inc.line == line && inc.directive_span.0 <= b && b <= inc.directive_span.1 && inc.resolved is Some
}

proof fn lemma_reference_target(incs: Seq<IncludeView>, line: u32, b: int, default: Seq<char>)
    ensures
        (forall|i: int| 0 <= i < incs.len() ==> !redirects(#[trigger] incs[i], line, b)) ==> reference_target(
            incs,
            line,
            b,
            default,
        ) == default,
        forall|j: int|
            0 <= j < incs.len() && redirects(#[trigger] incs[j], line, b) && (forall|i: int|
                j < i < incs.len() ==> !redirects(#[trigger] incs[i], line, b)) ==> reference_target(incs, line, b, default)
                == incs[j].resolved->0,
    decreases incs.len(),
{
    if incs.len() > 0 {
        let d = incs.drop_last();
        lemma_reference_target(d, line, b, default);
        assert(incs[incs.len() - 1] == incs.last());
        assert forall|i: int| 0 <= i < d.len() implies d[i] == incs[i] by {}
    }
}

/// A reference search looks for the includers of the requesting file, unless
/// the cursor's byte offset lies inside a resolving include directive on the
/// cursor's line: then it looks for the includers of the last such
/// directive's target. A directive on another line never changes the target.
pub proof fn law_reference_target(s: State, path: Seq<char>, pos: Position, l: Seq<char>)
    requires
        position_line_spec(s, path, pos) == Some(l),
    ensures
        ({
            let incs = includes_of(s, path);
            let b = byte_at_col(l, pos.character);
            &&& (forall|i: int| 0 <= i < incs.len() ==> !redirects(#[trigger] incs[i], pos.line, b))
                ==> references_plan_spec(s, path, pos) == Some(
                reference_locations(s, includers_spec(s.index_spec(), path)),
            )
            &&& forall|j: int|
                0 <= j < incs.len() && redirects(#[trigger] incs[j], pos.line, b) && (forall|i: int|
                    j < i < incs.len() ==> !redirects(#[trigger] incs[i], pos.line, b)) ==> references_plan_spec(
                    s,
                    path,
                    pos,
                ) == Some(reference_locations(s, includers_spec(s.index_spec(), incs[j].resolved->0)))
        }),
{
    let b = byte_at_col(l, pos.character);
    lemma_reference_target(includes_of(s, path), pos.line, b, path);
}

/// Hover shows the built-in doc of the word under the cursor when there is
/// one (of its qualifier's member, else of an ADO member, for a qualified
/// word; of an intrinsic object otherwise). When there is none, it shows the
/// definition line of the first definition found for the word, whether or
/// not the word is qualified; with no definition either, nothing.
pub proof fn law_hover_falls_back_to_definitions(s: State, path: Seq<char>, pos: Position, l: Seq<char>)
    requires
        position_line_spec(s, path, pos) == Some(l),
        word_at_spec(l, pos.character) is Some,
    ensures
        ({
            let w = cursor_word(l, pos.character);
            let q = cursor_qualifier(l, pos.character);
            let builtin = match q {
                Some(qualifier) => match member_doc_spec(qualifier, w) {
                    Some(d) => Some(d),
                    None => ado_member_doc_spec(w),
                },
                None => object_doc_spec(w),
            };
            let defs = find_definitions_spec(s.index_spec(), path, w);
            &&& builtin is Some ==> hover_spec(s, path, pos) == builtin
            &&& builtin is None && defs.len() > 0 ==> hover_spec(s, path, pos) == Some(
                definition_hover(defs[0].1.signature, origin_spec(defs[0].0, s.root_view())),
            )
            &&& builtin is None && defs.len() == 0 ==> hover_spec(s, path, pos) is None
            &&& q is Some && member_doc_spec(q->0, w) is None && ado_member_doc_spec(w) is None && defs.len() > 0
                ==> hover_spec(s, path, pos) == Some(
                definition_hover(defs[0].1.signature, origin_spec(defs[0].0, s.root_view())),
            )
        }),
{
}

/// An include directive that gets a diagnostic: it does not resolve and its
/// line exists in the text `ls`.
pub open spec fn reported(inc: IncludeView, ls: Seq<Seq<char>>) -> bool {
    inc.resolved is None && (inc.line as int) < ls.len()
}

/// The diagnostic of such a directive: the range of its path, and a message
/// naming the path.
pub open spec fn diagnostic_of(inc: IncludeView, ls: Seq<Seq<char>>) -> (Range, Seq<char>) {
    (span_range_spec(inc.line, ls[inc.line as int], inc.path_span), unresolved_message(inc.raw_path))
}

pub open spec fn count_reported(incs: Seq<IncludeView>, ls: Seq<Seq<char>>) -> nat
    decreases incs.len(),
{
    if incs.len() == 0 {
        0
    } else {
        count_reported(incs.drop_last(), ls) + if reported(incs.last(), ls) {
            1nat
        } else {
            0nat
        }
    }
}

proof fn lemma_unresolved_diagnostics(incs: Seq<IncludeView>, ls: Seq<Seq<char>>) -> (at: Seq<int>)
    ensures
        unresolved_diagnostics(incs, ls).len() == count_reported(incs, ls),
        at.len() == unresolved_diagnostics(incs, ls).len(),
        forall|j: int|
            0 <= j < at.len() ==> 0 <= #[trigger] at[j] < incs.len() && reported(incs[at[j]], ls)
                && unresolved_diagnostics(incs, ls)[j] == diagnostic_of(incs[at[j]], ls),
        forall|j: int, k: int| 0 <= j < k < at.len() ==> at[j] < at[k],
        forall|i: int|
            0 <= i < incs.len() && reported(#[trigger] incs[i], ls) ==> exists|j: int| 0 <= j < at.len() && at[j] == i,
    decreases incs.len(),
{
    if incs.len() == 0 {
        Seq::empty()
    } else {
        let d = incs.drop_last();
        let a0 = lemma_unresolved_diagnostics(d, ls);
        let last = incs.len() - 1;
        assert(incs[last] == incs.last());
        assert forall|i: int| 0 <= i < d.len() implies d[i] == incs[i] by {}
        if reported(incs.last(), ls) {
            let at = a0.push(last);
            assert forall|i: int| 0 <= i < incs.len() && reported(#[trigger] incs[i], ls) implies exists|j: int|
                0 <= j < at.len() && at[j] == i by {
                if i < last {
                    let j = choose|j: int| 0 <= j < a0.len() && a0[j] == i;
                    assert(at[j] == i);
                } else {
                    assert(at[at.len() - 1] == i);
                }
            }
            at
        } else {
            assert forall|i: int| 0 <= i < incs.len() && reported(#[trigger] incs[i], ls) implies exists|j: int|
                0 <= j < a0.len() && a0[j] == i by {
                assert(i < last);
            }
            a0
        }
    }
}

/// The diagnostics of an indexed file with a text: one for each of its
/// include directives that does not resolve and whose line exists, in the
/// order of the directives, as many as there are such directives; each
/// underlines the directive's path and names it. `at[j]` is the place of the
/// directive the `j`-th diagnostic reports.
pub proof fn law_diagnostics_cover_unresolved_includes(s: State, path: Seq<char>, fi: FileIndexView, t: Seq<char>) -> (at: Seq<int>)
    requires
        lookup(s.index_spec(), path) == Some(fi),
        s.text_spec(path) == Some(t),
    ensures
        diagnostics_spec(s, path).len() == count_reported(fi.includes, lines(t)),
        at.len() == diagnostics_spec(s, path).len(),
        forall|j: int|
            0 <= j < at.len() ==> 0 <= #[trigger] at[j] < fi.includes.len() && reported(fi.includes[at[j]], lines(t))
                && diagnostics_spec(s, path)[j] == diagnostic_of(fi.includes[at[j]], lines(t)),
        forall|j: int, k: int| 0 <= j < k < at.len() ==> at[j] < at[k],
        forall|i: int|
            0 <= i < fi.includes.len() && reported(#[trigger] fi.includes[i], lines(t)) ==> diagnostics_spec(
                s,
                path,
            ).contains(diagnostic_of(fi.includes[i], lines(t))),
{
    let ls = lines(t);
    let at = lemma_unresolved_diagnostics(fi.includes, ls);
    let ds = diagnostics_spec(s, path);
    assert(ds == unresolved_diagnostics(fi.includes, ls));
    assert forall|i: int| 0 <= i < fi.includes.len() && reported(#[trigger] fi.includes[i], ls) implies ds.contains(
        diagnostic_of(fi.includes[i], ls),
    ) by {
        let j = choose|j: int| 0 <= j < at.len() && at[j] == i;
        assert(ds[j] == diagnostic_of(fi.includes[at[j]], ls));
    }
    at
}

/// The workspace-symbol entry of symbol `sym` of `file`, when the file has a
/// text holding the symbol's line: its name, kind, file and the range of its
/// name.
pub open spec fn symbol_entry(s: State, file: Seq<char>, sym: SymbolView) -> Option<
    (Seq<char>, SymbolKind, Seq<char>, Range),
> {
    match s.text_spec(file) {
        Some(t) => if (sym.line as int) < lines(t).len() {
            Some((sym.name, sym.kind, file, span_range_spec(sym.line, lines(t)[sym.line as int], sym.name_span)))
        } else {
            None
        },
        None => None,
    }
}

proof fn lemma_file_items_complete(s: State, file: Seq<char>, syms: Seq<SymbolView>, query: Seq<char>)
    ensures
        forall|m: int|
            0 <= m < syms.len() && query_matches(query, (#[trigger] syms[m]).name) && symbol_entry(s, file, syms[m]) is Some
                ==> file_symbol_items(s, file, syms, query).contains(symbol_entry(s, file, syms[m])->0),
    decreases syms.len(),
{
    if syms.len() > 0 {
        let d = syms.drop_last();
        lemma_file_items_complete(s, file, d, query);
        let before = file_symbol_items(s, file, d, query);
        let all = file_symbol_items(s, file, syms, query);
        assert forall|m: int|
            0 <= m < syms.len() && query_matches(query, (#[trigger] syms[m]).name) && symbol_entry(s, file, syms[m]) is Some
                implies all.contains(symbol_entry(s, file, syms[m])->0) by {
            if m < d.len() {
                assert(d[m] == syms[m]);
                let k = choose|k: int| 0 <= k < before.len() && before[k] == symbol_entry(s, file, d[m])->0;
                assert(all[k] == before[k]);
            } else {
                assert(syms[m] == syms.last());
                assert(all[all.len() - 1] == symbol_entry(s, file, syms[m])->0);
            }
        }
    }
}

proof fn lemma_items_complete(s: State, idx: Seq<(Seq<char>, FileIndexView)>, query: Seq<char>)
    ensures
        forall|k: int, m: int|
            0 <= k < idx.len() && 0 <= m < idx[k].1.symbols.len() && query_matches(
                query,
                (#[trigger] idx[k].1.symbols[m]).name,
            ) && symbol_entry(s, idx[k].0, idx[k].1.symbols[m]) is Some ==> symbol_items(s, idx, query).contains(
                symbol_entry(s, idx[k].0, idx[k].1.symbols[m])->0,
            ),
    decreases idx.len(),
{
    if idx.len() > 0 {
        let d = idx.drop_last();
        lemma_items_complete(s, d, query);
        let last = idx.last();
        lemma_file_items_complete(s, last.0, last.1.symbols, query);
        let before = symbol_items(s, d, query);
        let tail = file_symbol_items(s, last.0, last.1.symbols, query);
        let all = symbol_items(s, idx, query);
        assert(all == before + tail);
        assert forall|k: int, m: int|
            0 <= k < idx.len() && 0 <= m < idx[k].1.symbols.len() && query_matches(
                query,
                (#[trigger] idx[k].1.symbols[m]).name,
            ) && symbol_entry(s, idx[k].0, idx[k].1.symbols[m]) is Some implies all.contains(
            symbol_entry(s, idx[k].0, idx[k].1.symbols[m])->0,
        ) by {
            let e = symbol_entry(s, idx[k].0, idx[k].1.symbols[m])->0;
            if k < d.len() {
                assert(d[k] == idx[k]);
                assert(d[k].1.symbols[m] == idx[k].1.symbols[m]);
                let p = choose|p: int| 0 <= p < before.len() && before[p] == e;
                assert(all[p] == before[p]);
            } else {
                assert(idx[k] == last);
                let p = choose|p: int| 0 <= p < tail.len() && tail[p] == e;
                assert(all[before.len() + p] == tail[p]);
            }
        }
    }
}

proof fn lemma_select_contains<A>(v: Seq<A>, keep: Seq<bool>, i: int)
    requires
        v.len() == keep.len(),
        0 <= i < v.len(),
        keep[i],
    ensures
        select(v, keep).contains(v[i]),
    decreases v.len(),
{
    let r = select(v, keep);
    if i == v.len() - 1 {
        assert(r[r.len() - 1] == v[i]);
    } else {
        lemma_select_contains(v.drop_last(), keep.drop_last(), i);
        let b = select(v.drop_last(), keep.drop_last());
        let k = choose|k: int| 0 <= k < b.len() && b[k] == v.drop_last()[i];
        assert(r[k] == b[k]);
    }
}

/// A workspace symbol search that stops short of the limit lists every
/// symbol of every indexed file whose name contains the query (ignoring
/// ASCII case), whose line exists in its file's text and whose file has a
/// URL, whatever its kind.
pub proof fn law_workspace_symbols_complete(
    s: State,
    idx: Seq<(Seq<char>, FileIndexView)>,
    query: Seq<char>,
    uris: Seq<Option<lsp_types::Url>>,
    r: Seq<(Seq<char>, SymbolKind, Seq<char>, Range)>,
    n: int,
)
    requires
        0 <= n <= symbol_items(s, idx, query).len(),
        lists_symbols(
            symbol_items(s, idx, query),
            r,
            symbol_url_flags(idx, uris, symbol_items(s, idx, query).take(n)),
        ),
        count_true(symbol_url_flags(idx, uris, symbol_items(s, idx, query))) < MAX_WORKSPACE_SYMBOLS,
    ensures
        forall|k: int, m: int|
            0 <= k < idx.len() && 0 <= m < idx[k].1.symbols.len() && query_matches(
                query,
                (#[trigger] idx[k].1.symbols[m]).name,
            ) && symbol_entry(s, idx[k].0, idx[k].1.symbols[m]) is Some && url_of(idx, uris, idx[k].0) is Some
                ==> r.contains(symbol_entry(s, idx[k].0, idx[k].1.symbols[m])->0),
{
    let all = symbol_items(s, idx, query);
    let flags = symbol_url_flags(idx, uris, all);
    law_workspace_symbol_count(s, idx, query, uris, r, n);
    lemma_items_complete(s, idx, query);
    assert forall|k: int, m: int|
        0 <= k < idx.len() && 0 <= m < idx[k].1.symbols.len() && query_matches(
            query,
            (#[trigger] idx[k].1.symbols[m]).name,
        ) && symbol_entry(s, idx[k].0, idx[k].1.symbols[m]) is Some && url_of(idx, uris, idx[k].0) is Some
            implies r.contains(symbol_entry(s, idx[k].0, idx[k].1.symbols[m])->0) by {
        let e = symbol_entry(s, idx[k].0, idx[k].1.symbols[m])->0;
        let p = choose|p: int| 0 <= p < all.len() && all[p] == e;
        assert(flags[p]);
        lemma_select_contains(all, flags, p);
    }
}

} // verus!
