//! Properties of the server that hold of every input: how includes resolve,
//! what definition and reference searches return, and how lookups treat
//! case.

use vstd::prelude::*;
use crate::builtins::{ado_member_doc_spec, doc_markdown, member_doc_spec, member_entry, name_entry, object_doc_spec, ADO_MEMBER_DOCS, MEMBER_DOCS, OBJECT_DOCS};
use crate::closure::{definitions_everywhere, definitions_in, find_definitions_spec, includers_spec, includes_to, named};
use crate::files::{nearest_marked, site_root_spec, first_case_insensitive, first_link_case_insensitive, resolve_existing_spec, keys_of, lemma_lookup_none, lemma_lookup_upsert, lookup, upsert};
use crate::lsp::{symbol_url_flags, diagnostics_spec, file_symbol_items, lists_symbols, query_matches, select, symbol_items, unresolved_diagnostics, unresolved_message};
use crate::parse::{byte_at, file_includes, include_view_of, line_includes, lemma_lines_bytes, file_symbols, line_symbol, parse_spec, backslashes_to_slashes, resolve_include_spec, FileIndexView, IncludeKind, IncludeView, SymbolKind, SymbolView};
use crate::position::Range;
use crate::state::{scan_selection, State, MAX_INDEXED_FILES};
use crate::paths::{components, is_absolute, normalize_spec, render, segment_state, segments};
use crate::text::{ascii_lower, ascii_lower_seq, byte_len, eq_ignore_ascii_case, is_white_space, trim, trim_end, trim_start};

verus! {

/// A `file=` include whose path starts with `/` resolves as the same path
/// written with `virtual=`: against the web root.
pub proof fn law_root_absolute_file_include(
    from_file: Seq<char>,
    web_root: Seq<char>,
    raw: Seq<char>,
    files: (Seq<Seq<char>>, Seq<(Seq<char>, Seq<char>)>),
)
    requires
        backslashes_to_slashes(trim(raw)).len() > 0,
        backslashes_to_slashes(trim(raw))[0] == '/',
    ensures
        resolve_include_spec(from_file, web_root, IncludeKind::File, raw, files)
            == resolve_include_spec(from_file, web_root, IncludeKind::Virtual, raw, files),
{
}

/// Hover documentation of built-in objects and members ignores ASCII case.
pub proof fn law_hover_docs_ignore_case(object: Seq<char>, object2: Seq<char>, member: Seq<char>, member2: Seq<char>)
    requires
        eq_ignore_ascii_case(object, object2),
        eq_ignore_ascii_case(member, member2),
    ensures
        member_doc_spec(object, member) == member_doc_spec(object2, member2),
        object_doc_spec(object) == object_doc_spec(object2),
        ado_member_doc_spec(member) == ado_member_doc_spec(member2),
{
}

proof fn lemma_named_match(file: Seq<char>, syms: Seq<SymbolView>, name: Seq<char>)
    ensures
        forall|i: int| 0 <= i < named(file, syms, name).len() ==> {
            &&& eq_ignore_ascii_case((#[trigger] named(file, syms, name)[i]).1.name, name)
            &&& named(file, syms, name)[i].0 == file
            &&& syms.contains(named(file, syms, name)[i].1)
        },
    decreases syms.len(),
{
    if syms.len() > 0 {
        let d = syms.drop_last();
        lemma_named_match(file, d, name);
        let before = named(file, d, name);
        let all = named(file, syms, name);
        assert forall|i: int| 0 <= i < all.len() implies {
            &&& eq_ignore_ascii_case((#[trigger] all[i]).1.name, name)
            &&& all[i].0 == file
            &&& syms.contains(all[i].1)
        } by {
            if i < before.len() {
                assert(all[i] == before[i]);
                assert(d.contains(before[i].1));
                let k = choose|k: int| 0 <= k < d.len() && d[k] == before[i].1;
                assert(syms[k] == d[k]);
            } else {
                assert(all[i] == (file, syms.last()));
                assert(syms[syms.len() - 1] == syms.last());
            }
        }
    }
}

proof fn lemma_named_found(file: Seq<char>, syms: Seq<SymbolView>, name: Seq<char>, j: int)
    requires
        0 <= j < syms.len(),
        eq_ignore_ascii_case(syms[j].name, name),
    ensures
        named(file, syms, name).len() > 0,
    decreases syms.len(),
{
    if j < syms.len() - 1 {
        assert(syms.drop_last()[j] == syms[j]);
        lemma_named_found(file, syms.drop_last(), name, j);
    }
}

proof fn lemma_definitions_in_match(idx: Seq<(Seq<char>, FileIndexView)>, files: Seq<Seq<char>>, name: Seq<char>)
    ensures
        forall|i: int| 0 <= i < definitions_in(idx, files, name).len() ==> eq_ignore_ascii_case(
            (#[trigger] definitions_in(idx, files, name)[i]).1.name,
            name,
        ),
    decreases files.len(),
{
    if files.len() > 0 {
        let d = files.drop_last();
        lemma_definitions_in_match(idx, d, name);
        let before = definitions_in(idx, d, name);
        let all = definitions_in(idx, files, name);
        match crate::files::lookup(idx, files.last()) {
            Some(fi) => {
                lemma_named_match(files.last(), fi.symbols, name);
                let tail = named(files.last(), fi.symbols, name);
                assert(all == before + tail);
                assert forall|i: int| 0 <= i < all.len() implies eq_ignore_ascii_case((#[trigger] all[i]).1.name, name) by {
                    if i < before.len() {
                        assert(all[i] == before[i]);
                    } else {
                        assert(all[i] == tail[i - before.len()]);
                    }
                }
            },
            None => {
                assert(all =~= before);
            },
        }
    }
}

proof fn lemma_everywhere_match(idx: Seq<(Seq<char>, FileIndexView)>, name: Seq<char>)
    ensures
        forall|i: int| 0 <= i < definitions_everywhere(idx, name).len() ==> eq_ignore_ascii_case(
            (#[trigger] definitions_everywhere(idx, name)[i]).1.name,
            name,
        ),
    decreases idx.len(),
{
    if idx.len() > 0 {
        let d = idx.drop_last();
        lemma_everywhere_match(d, name);
        lemma_named_match(idx.last().0, idx.last().1.symbols, name);
        let before = definitions_everywhere(d, name);
        let tail = named(idx.last().0, idx.last().1.symbols, name);
        let all = definitions_everywhere(idx, name);
        assert forall|i: int| 0 <= i < all.len() implies eq_ignore_ascii_case((#[trigger] all[i]).1.name, name) by {
            if i < before.len() {
                assert(all[i] == before[i]);
            } else {
                assert(all[i] == tail[i - before.len()]);
            }
        }
    }
}

proof fn lemma_everywhere_found(idx: Seq<(Seq<char>, FileIndexView)>, name: Seq<char>, i: int, j: int)
    requires
        0 <= i < idx.len(),
        0 <= j < idx[i].1.symbols.len(),
        eq_ignore_ascii_case(idx[i].1.symbols[j].name, name),
    ensures
        definitions_everywhere(idx, name).len() > 0,
    decreases idx.len(),
{
    if i < idx.len() - 1 {
        assert(idx.drop_last()[i] == idx[i]);
        lemma_everywhere_found(idx.drop_last(), name, i, j);
    } else {
        lemma_named_found(idx.last().0, idx.last().1.symbols, name, j);
    }
}

/// Every definition that the search for `name` finds is named `name`,
/// ignoring ASCII case.
pub proof fn law_definitions_match_name(idx: Seq<(Seq<char>, FileIndexView)>, from: Seq<char>, name: Seq<char>)
    ensures
        forall|i: int| 0 <= i < find_definitions_spec(idx, from, name).len() ==> eq_ignore_ascii_case(
            (#[trigger] find_definitions_spec(idx, from, name)[i]).1.name,
            name,
        ),
{
    lemma_definitions_in_match(idx, crate::closure::include_closure_spec(idx, from), name);
    lemma_everywhere_match(idx, name);
}

/// When some indexed file defines `name`, the search for it finds at least
/// one definition, wherever it starts from.
pub proof fn law_defined_names_are_found(
    idx: Seq<(Seq<char>, FileIndexView)>,
    from: Seq<char>,
    name: Seq<char>,
    i: int,
    j: int,
)
    requires
        0 <= i < idx.len(),
        0 <= j < idx[i].1.symbols.len(),
        eq_ignore_ascii_case(idx[i].1.symbols[j].name, name),
    ensures
        find_definitions_spec(idx, from, name).len() > 0,
{
    lemma_everywhere_found(idx, name, i, j);
}

proof fn lemma_includes_to_target(file: Seq<char>, incs: Seq<IncludeView>, target: Seq<char>)
    ensures
        forall|i: int| 0 <= i < includes_to(file, incs, target).len() ==> {
            &&& (#[trigger] includes_to(file, incs, target)[i]).1.resolved == Some(target)
            &&& includes_to(file, incs, target)[i].0 == file
        },
    decreases incs.len(),
{
    if incs.len() > 0 {
        let d = incs.drop_last();
        lemma_includes_to_target(file, d, target);
        let before = includes_to(file, d, target);
        let all = includes_to(file, incs, target);
        assert forall|i: int| 0 <= i < all.len() implies {
            &&& (#[trigger] all[i]).1.resolved == Some(target)
            &&& all[i].0 == file
        } by {
            if i < before.len() {
                assert(all[i] == before[i]);
            }
        }
    }
}

/// Every include directive that a search for the includers of `target`
/// returns resolves to `target`, and stands in an indexed file.
pub proof fn law_includers_resolve_to_target(idx: Seq<(Seq<char>, FileIndexView)>, target: Seq<char>)
    ensures
        forall|i: int| 0 <= i < includers_spec(idx, target).len() ==> {
            &&& (#[trigger] includers_spec(idx, target)[i]).1.resolved == Some(target)
            &&& keys_of(idx).contains(includers_spec(idx, target)[i].0)
        },
    decreases idx.len(),
{
    if idx.len() > 0 {
        let d = idx.drop_last();
        law_includers_resolve_to_target(d, target);
        lemma_includes_to_target(idx.last().0, idx.last().1.includes, target);
        let before = includers_spec(d, target);
        let tail = includes_to(idx.last().0, idx.last().1.includes, target);
        let all = includers_spec(idx, target);
        assert forall|i: int| 0 <= i < all.len() implies {
            &&& (#[trigger] all[i]).1.resolved == Some(target)
            &&& keys_of(idx).contains(all[i].0)
        } by {
            if i < before.len() {
                assert(all[i] == before[i]);
                let k = choose|k: int| 0 <= k < keys_of(d).len() && keys_of(d)[k] == before[i].0;
                assert(keys_of(idx)[k] == keys_of(d)[k]);
            } else {
                assert(all[i] == tail[i - before.len()]);
                assert(keys_of(idx)[idx.len() - 1] == idx.last().0);
            }
        }
    }
}

proof fn lemma_select_from<A>(v: Seq<A>, keep: Seq<bool>)
    ensures
        forall|i: int| 0 <= i < select(v, keep).len() ==> v.contains(#[trigger] select(v, keep)[i]),
    decreases v.len(),
{
    if v.len() > 0 && keep.len() > 0 {
        let d = v.drop_last();
        lemma_select_from(d, keep.drop_last());
        let before = select(d, keep.drop_last());
        let all = select(v, keep);
        assert forall|i: int| 0 <= i < all.len() implies v.contains(#[trigger] all[i]) by {
            if i < before.len() {
                assert(all[i] == before[i]);
                let k = choose|k: int| 0 <= k < d.len() && d[k] == before[i];
                assert(v[k] == d[k]);
            } else {
                assert(all[i] == v.last());
                assert(v[v.len() - 1] == v.last());
            }
        }
    }
}

proof fn lemma_file_items_match(s: State, file: Seq<char>, syms: Seq<SymbolView>, query: Seq<char>)
    ensures
        forall|i: int| 0 <= i < file_symbol_items(s, file, syms, query).len() ==> query_matches(
            query,
            (#[trigger] file_symbol_items(s, file, syms, query)[i]).0,
        ),
    decreases syms.len(),
{
    if syms.len() > 0 {
        let d = syms.drop_last();
        lemma_file_items_match(s, file, d, query);
        let before = file_symbol_items(s, file, d, query);
        let all = file_symbol_items(s, file, syms, query);
        assert forall|i: int| 0 <= i < all.len() implies query_matches(query, (#[trigger] all[i]).0) by {
            if i < before.len() {
                assert(all[i] == before[i]);
            }
        }
    }
}

proof fn lemma_symbol_items_match(s: State, idx: Seq<(Seq<char>, FileIndexView)>, query: Seq<char>)
    ensures
        forall|i: int| 0 <= i < symbol_items(s, idx, query).len() ==> query_matches(
            query,
            (#[trigger] symbol_items(s, idx, query)[i]).0,
        ),
    decreases idx.len(),
{
    if idx.len() > 0 {
        let d = idx.drop_last();
        lemma_symbol_items_match(s, d, query);
        lemma_file_items_match(s, idx.last().0, idx.last().1.symbols, query);
        let before = symbol_items(s, d, query);
        let tail = file_symbol_items(s, idx.last().0, idx.last().1.symbols, query);
        let all = symbol_items(s, idx, query);
        assert forall|i: int| 0 <= i < all.len() implies query_matches(query, (#[trigger] all[i]).0) by {
            if i < before.len() {
                assert(all[i] == before[i]);
            } else {
                assert(all[i] == tail[i - before.len()]);
            }
        }
    }
}

/// Every symbol that a workspace symbol search lists matches the query, and
/// the list holds at most the limit.
pub proof fn law_workspace_symbols_match_query(
    s: State,
    idx: Seq<(Seq<char>, FileIndexView)>,
    query: Seq<char>,
    r: Seq<(Seq<char>, SymbolKind, Seq<char>, Range)>,
    keep: Seq<bool>,
)
    requires
        lists_symbols(symbol_items(s, idx, query), r, keep),
    ensures
        r.len() <= crate::lsp::MAX_WORKSPACE_SYMBOLS,
        forall|i: int| 0 <= i < r.len() ==> query_matches(query, (#[trigger] r[i]).0),
{
    let items = symbol_items(s, idx, query);
    let pre = items.take(keep.len() as int);
    lemma_select_from(pre, keep);
    lemma_symbol_items_match(s, idx, query);
    assert forall|i: int| 0 <= i < r.len() implies query_matches(query, (#[trigger] r[i]).0) by {
        assert(pre.contains(r[i]));
        let k = choose|k: int| 0 <= k < pre.len() && pre[k] == r[i];
        assert(items[k] == pre[k]);
    }
}

/// An opened or edited document reads back as its new text, and its index
/// entry is the one that text gives: the state after such an event, as
/// `apply_document_event` states it, answers with what was written.
pub proof fn law_document_reads_back(before: State, after: State, p: Seq<char>, t: Seq<char>)
    requires
        after.overlays_spec() == upsert(before.overlays_spec(), p, t),
        after.index_spec() == upsert(before.index_spec(), p, before.index_for(p, t)),
    ensures
        after.text_spec(p) == Some(t),
        lookup(after.index_spec(), p) == Some(before.index_for(p, t)),
{
    lemma_lookup_upsert(before.overlays_spec(), p, t);
    lemma_lookup_upsert(before.index_spec(), p, before.index_for(p, t));
}

/// Once a document is closed, its text is the one last read from disk again.
pub proof fn law_closed_document_reads_disk(before: State, after: State, p: Seq<char>)
    requires
        after.overlays_spec() == before.overlays_spec().filter(|e: (Seq<char>, Seq<char>)| e.0 != p),
        after.disk_spec() == before.disk_spec(),
    ensures
        after.text_spec(p) == before.disk_spec().text_spec(p),
{
    let pred = |e: (Seq<char>, Seq<char>)| e.0 != p;
    let kept = before.overlays_spec().filter(pred);
    before.overlays_spec().filter_lemma(pred);
    assert forall|i: int| 0 <= i < keys_of(kept).len() implies keys_of(kept)[i] != p by {
        assert(pred(kept[i]));
    }
    lemma_lookup_none(kept, p);
}

proof fn lemma_first_case_insensitive(paths: Seq<Seq<char>>, n: Seq<char>)
    ensures
        match first_case_insensitive(paths, n) {
            Some(p) => paths.contains(p) && eq_ignore_ascii_case(p, n),
            None => forall|i: int| 0 <= i < paths.len() ==> !eq_ignore_ascii_case(#[trigger] paths[i], n),
        },
    decreases paths.len(),
{
    if paths.len() > 0 {
        let rest = paths.drop_first();
        lemma_first_case_insensitive(rest, n);
        if !eq_ignore_ascii_case(paths[0], n) {
            match first_case_insensitive(rest, n) {
                Some(p) => {
                    let k = choose|k: int| 0 <= k < rest.len() && rest[k] == p;
                    assert(paths[k + 1] == p);
                },
                None => {
                    assert forall|i: int| 0 <= i < paths.len() implies !eq_ignore_ascii_case(#[trigger] paths[i], n) by {
                        if i > 0 {
                            assert(paths[i] == rest[i - 1]);
                        }
                    }
                },
            }
        } else {
            assert(paths[0] == paths[0]);
        }
    }
}

proof fn lemma_first_link_case_insensitive(links: Seq<(Seq<char>, Seq<char>)>, n: Seq<char>)
    ensures
        match first_link_case_insensitive(links, n) {
            Some(c) => exists|k: int| 0 <= k < links.len() && eq_ignore_ascii_case(links[k].0, n) && #[trigger] links[k].1 == c,
            None => forall|i: int| 0 <= i < links.len() ==> !eq_ignore_ascii_case(#[trigger] links[i].0, n),
        },
    decreases links.len(),
{
    if links.len() > 0 {
        let rest = links.drop_first();
        lemma_first_link_case_insensitive(rest, n);
        if !eq_ignore_ascii_case(links[0].0, n) {
            match first_link_case_insensitive(rest, n) {
                Some(c) => {
                    let k = choose|k: int| 0 <= k < rest.len() && eq_ignore_ascii_case(rest[k].0, n) && #[trigger] rest[k].1 == c;
                    assert(links[k + 1] == rest[k]);
                },
                None => {
                    assert forall|i: int| 0 <= i < links.len() implies !eq_ignore_ascii_case(#[trigger] links[i].0, n) by {
                        if i > 0 {
                            assert(links[i] == rest[i - 1]);
                        }
                    }
                },
            }
        } else {
            assert(links[0].1 == links[0].1);
        }
    }
}

/// An include resolves only to the canonical path of a known file: the
/// candidate's normalized path itself when that file exists; else the file a
/// link of exactly that path reaches; else a file, or the file of a link,
/// whose path matches it ignoring ASCII case. It resolves to nothing only when
/// no known path or link matches it even ignoring case.
pub proof fn law_resolution_yields_known_files(
    paths: Seq<Seq<char>>,
    links: Seq<(Seq<char>, Seq<char>)>,
    candidate: Seq<char>,
)
    ensures
        paths.contains(normalize_spec(candidate)) ==> resolve_existing_spec(paths, links, candidate) == Some(
            normalize_spec(candidate),
        ),
        match resolve_existing_spec(paths, links, candidate) {
            Some(p) => (paths.contains(p) && eq_ignore_ascii_case(p, normalize_spec(candidate))) || exists|k: int|
                0 <= k < links.len() && eq_ignore_ascii_case(links[k].0, normalize_spec(candidate)) && #[trigger] links[k].1
                    == p,
            None => (forall|i: int|
                0 <= i < paths.len() ==> !eq_ignore_ascii_case(#[trigger] paths[i], normalize_spec(candidate))) && (forall|i: int|
                0 <= i < links.len() ==> !eq_ignore_ascii_case(#[trigger] links[i].0, normalize_spec(candidate))),
        },
{
    let n = normalize_spec(candidate);
    lemma_first_case_insensitive(paths, n);
    lemma_first_link_case_insensitive(links, n);
    if !paths.contains(n) {
        match lookup(links, n) {
            Some(c) => {
                lemma_lookup_found(links, n);
                let k = choose|k: int| 0 <= k < links.len() && links[k].0 == n && #[trigger] links[k].1 == c;
                assert(ascii_lower_seq(links[k].0) == ascii_lower_seq(n));
            },
            None => {
                lemma_lookup_none_all(links, n);
            },
        }
    }
}

proof fn lemma_lookup_found(s: Seq<(Seq<char>, Seq<char>)>, k: Seq<char>)
    requires
        lookup(s, k) is Some,
    ensures
        exists|i: int| 0 <= i < s.len() && s[i].0 == k && #[trigger] s[i].1 == lookup(s, k)->0,
    decreases s.len(),
{
    if s[0].0 != k {
        lemma_lookup_found(s.drop_first(), k);
        let i = choose|i: int| 0 <= i < s.drop_first().len() && s.drop_first()[i].0 == k && #[trigger] s.drop_first()[i].1
            == lookup(s.drop_first(), k)->0;
        assert(s[i + 1] == s.drop_first()[i]);
    } else {
        assert(s[0].1 == lookup(s, k)->0);
    }
}

proof fn lemma_lookup_none_all(s: Seq<(Seq<char>, Seq<char>)>, k: Seq<char>)
    requires
        lookup(s, k) is None,
    ensures
        forall|i: int| 0 <= i < s.len() ==> (#[trigger] s[i]).0 != k,
    decreases s.len(),
{
    if s.len() > 0 {
        lemma_lookup_none_all(s.drop_first(), k);
        assert forall|i: int| 0 <= i < s.len() implies (#[trigger] s[i]).0 != k by {
            if i > 0 {
                assert(s[i] == s.drop_first()[i - 1]);
            }
        }
    }
}

proof fn lemma_upsert_len<V>(s: Seq<(Seq<char>, V)>, k: Seq<char>, v: V)
    ensures
        upsert(s, k, v).len() <= s.len() + 1,
    decreases s.len(),
{
    if s.len() > 0 && s[0].0 != k {
        lemma_upsert_len(s.drop_first(), k, v);
    }
}

proof fn lemma_reindex_all_len(s: State, idx: Seq<(Seq<char>, FileIndexView)>, files: Seq<Seq<char>>)
    ensures
        s.reindex_all(idx, files).len() <= idx.len() + files.len(),
    decreases files.len(),
{
    if files.len() > 0 {
        lemma_reindex_all_len(s, idx, files.drop_last());
        let before = s.reindex_all(idx, files.drop_last());
        match s.text_spec(files.last()) {
            Some(t) => lemma_upsert_len(before, files.last(), s.index_for(files.last(), t)),
            None => {},
        }
    }
}

/// A workspace scan adds at most `MAX_INDEXED_FILES` files to the index,
/// however many files the walk finds.
pub proof fn law_scan_is_bounded(s: State, walked: Seq<(Seq<char>, Seq<char>)>)
    ensures
        s.reindex_all(s.index_spec(), scan_selection(walked)).len() <= s.index_spec().len() + MAX_INDEXED_FILES,
{
    lemma_reindex_all_len(s, s.index_spec(), scan_selection(walked));
}

proof fn lemma_unresolved_diagnostics(incs: Seq<IncludeView>, ls: Seq<Seq<char>>)
    ensures
        unresolved_diagnostics(incs, ls).len() <= incs.len(),
        forall|i: int|
            0 <= i < unresolved_diagnostics(incs, ls).len() ==> exists|k: int|
                0 <= k < incs.len() && incs[k].resolved is None && (#[trigger] unresolved_diagnostics(incs, ls)[i]).1
                    == unresolved_message(incs[k].raw_path),
    decreases incs.len(),
{
    if incs.len() > 0 {
        let d = incs.drop_last();
        lemma_unresolved_diagnostics(d, ls);
        let before = unresolved_diagnostics(d, ls);
        let all = unresolved_diagnostics(incs, ls);
        assert forall|i: int| 0 <= i < all.len() implies exists|k: int|
            0 <= k < incs.len() && incs[k].resolved is None && (#[trigger] all[i]).1 == unresolved_message(incs[k].raw_path) by {
            if i < before.len() {
                assert(all[i] == before[i]);
                let k = choose|k: int| 0 <= k < d.len() && d[k].resolved is None && before[i].1 == unresolved_message(d[k].raw_path);
                assert(incs[k] == d[k]);
            } else {
                assert(incs[incs.len() - 1] == incs.last());
            }
        }
    }
}

/// `message` reports an include directive among `incs` that does not resolve.
pub open spec fn reports_unresolved(incs: Seq<IncludeView>, message: Seq<char>) -> bool {
    exists|k: int| 0 <= k < incs.len() && #[trigger] incs[k].resolved is None && message == unresolved_message(incs[k].raw_path)
}

/// Every diagnostic of an indexed file reports one of its include
/// directives that does not resolve, naming the directive's path; there are
/// no more diagnostics than directives.
pub proof fn law_diagnostics_report_unresolved_includes(s: State, path: Seq<char>, fi: FileIndexView)
    requires
        lookup(s.index_spec(), path) == Some(fi),
    ensures
        diagnostics_spec(s, path).len() <= fi.includes.len(),
        forall|i: int|
            0 <= i < diagnostics_spec(s, path).len() ==> reports_unresolved(
                fi.includes,
                (#[trigger] diagnostics_spec(s, path)[i]).1,
            ),
{
    match s.text_spec(path) {
        Some(t) => {
            let ls = crate::text::lines(t);
            let d = unresolved_diagnostics(fi.includes, ls);
            lemma_unresolved_diagnostics(fi.includes, ls);
            assert(diagnostics_spec(s, path) == d);
            assert forall|i: int| 0 <= i < diagnostics_spec(s, path).len() implies reports_unresolved(
                fi.includes,
                (#[trigger] diagnostics_spec(s, path)[i]).1,
            ) by {
                assert(d[i] == diagnostics_spec(s, path)[i]);
            }
        },
        None => {},
    }
}


/// One of the five intrinsic objects, in lowercase.
pub open spec fn is_intrinsic_object(o: Seq<char>) -> bool {
    o == "response"@ || o == "request"@ || o == "server"@ || o == "session"@ || o == "application"@
}

spec fn objects_intrinsic(table: Seq<(&'static str, &'static str, &'static str, &'static str)>) -> bool
    decreases table.len(),
{
    if table.len() == 0 {
        true
    } else {
        is_intrinsic_object(table[0].0@) && objects_intrinsic(table.drop_first())
    }
}

proof fn lemma_member_entry(
    table: Seq<(&'static str, &'static str, &'static str, &'static str)>,
    o: Seq<char>,
    m: Seq<char>,
)
    ensures
        member_entry(table, o, m) is Some <==> exists|i: int| 0 <= i < table.len() && #[trigger] table[i].0@ == o && table[i].1@ == m,
        objects_intrinsic(table) && member_entry(table, o, m) is Some ==> is_intrinsic_object(o),
    decreases table.len(),
{
    if table.len() > 0 {
        lemma_member_entry(table.drop_first(), o, m);
        if exists|i: int| 0 <= i < table.len() && #[trigger] table[i].0@ == o && table[i].1@ == m {
            let i = choose|i: int| 0 <= i < table.len() && #[trigger] table[i].0@ == o && table[i].1@ == m;
            if i > 0 {
                assert(table.drop_first()[i - 1] == table[i]);
            }
        }
        if exists|i: int| 0 <= i < table.drop_first().len() && #[trigger] table.drop_first()[i].0@ == o && table.drop_first()[i].1@ == m {
            let i = choose|i: int| 0 <= i < table.drop_first().len() && #[trigger] table.drop_first()[i].0@ == o && table.drop_first()[i].1@ == m;
            assert(table[i + 1] == table.drop_first()[i]);
        }
    }
}

proof fn lemma_name_entry(table: Seq<(&'static str, &'static str, &'static str)>, n: Seq<char>)
    ensures
        name_entry(table, n) is Some <==> exists|i: int| 0 <= i < table.len() && #[trigger] table[i].0@ == n,
    decreases table.len(),
{
    if table.len() > 0 {
        lemma_name_entry(table.drop_first(), n);
        if exists|i: int| 0 <= i < table.len() && #[trigger] table[i].0@ == n {
            let i = choose|i: int| 0 <= i < table.len() && #[trigger] table[i].0@ == n;
            if i > 0 {
                assert(table.drop_first()[i - 1] == table[i]);
            }
        }
        if exists|i: int| 0 <= i < table.drop_first().len() && #[trigger] table.drop_first()[i].0@ == n {
            let i = choose|i: int| 0 <= i < table.drop_first().len() && #[trigger] table.drop_first()[i].0@ == n;
            assert(table[i + 1] == table.drop_first()[i]);
        }
    }
}

proof fn lemma_markdown_prefix(prefix: Seq<char>, title: Seq<char>, doc: Seq<char>)
    ensures
        doc_markdown(prefix, title, doc).take(3 + prefix.len() as int) == "**`"@ + prefix,
{
    reveal_strlit("**`");
    assert(doc_markdown(prefix, title, doc).take(3 + prefix.len() as int) =~= "**`"@ + prefix);
}

/// Member docs exist exactly for the listed pairs of lowercase object and
/// member, all of whose objects are intrinsic objects; each starts with "**`".
pub proof fn law_member_doc_table(object: Seq<char>, member: Seq<char>)
    ensures
        member_doc_spec(object, member) is Some <==> exists|i: int|
            0 <= i < MEMBER_DOCS@.len() && #[trigger] MEMBER_DOCS@[i].0@ == ascii_lower_seq(object) && MEMBER_DOCS@[i].1@
                == ascii_lower_seq(member),
        member_doc_spec(object, member) is Some ==> is_intrinsic_object(ascii_lower_seq(object)),
        member_doc_spec(object, member) matches Some(s) ==> s.take(3) == "**`"@,
{
    lemma_member_entry(MEMBER_DOCS@, ascii_lower_seq(object), ascii_lower_seq(member));
    assert(objects_intrinsic(MEMBER_DOCS@)) by {
        reveal_with_fuel(objects_intrinsic, 35);
    }
    if let Some((t, d)) = member_entry(MEMBER_DOCS@, ascii_lower_seq(object), ascii_lower_seq(member)) {
        lemma_markdown_prefix(Seq::empty(), t, d);
        assert("**`"@ + Seq::<char>::empty() =~= "**`"@);
    }
}

proof fn lemma_name_entry_at(table: Seq<(&'static str, &'static str, &'static str)>, n: Seq<char>, i: int)
    requires
        0 <= i < table.len(),
        table[i].0@ == n,
        forall|j: int| 0 <= j < i ==> (#[trigger] table[j]).0@ != n,
    ensures
        name_entry(table, n) == Some((table[i].1@, table[i].2@)),
    decreases i,
{
    if i > 0 {
        assert(table[0].0@ != n);
        assert forall|j: int| 0 <= j < i - 1 implies (#[trigger] table.drop_first()[j]).0@ != n by {
            assert(table.drop_first()[j] == table[j + 1]);
        }
        lemma_name_entry_at(table.drop_first(), n, i - 1);
    }
}

/// Object docs exist exactly for the five intrinsic objects, named in any
/// ASCII case; each is the object's title in bold code, a blank line, and
/// the object's text from the table.
pub proof fn law_object_doc_table(name: Seq<char>)
    ensures
        object_doc_spec(name) is Some <==> is_intrinsic_object(ascii_lower_seq(name)),
        object_doc_spec(name) is Some <==> exists|i: int| 0 <= i < OBJECT_DOCS@.len() && #[trigger] OBJECT_DOCS@[i].0@ == ascii_lower_seq(name),
        forall|i: int|
            0 <= i < OBJECT_DOCS@.len() && #[trigger] OBJECT_DOCS@[i].0@ == ascii_lower_seq(name) ==> object_doc_spec(name)
                == Some("**`"@ + OBJECT_DOCS@[i].1@ + "`**\n\n"@ + OBJECT_DOCS@[i].2@),
        object_doc_spec(name) matches Some(s) ==> s.take(3) == "**`"@,
{
    let n = ascii_lower_seq(name);
    let t = OBJECT_DOCS@;
    lemma_name_entry(t, n);
    if let Some((ti, d)) = name_entry(t, n) {
        lemma_markdown_prefix(Seq::empty(), ti, d);
        assert("**`"@ + Seq::<char>::empty() =~= "**`"@);
    }
    reveal_strlit("response");
    reveal_strlit("request");
    reveal_strlit("server");
    reveal_strlit("session");
    reveal_strlit("application");
    assert(t[0].0@ == "response"@);
    assert(t[1].0@ == "request"@);
    assert(t[2].0@ == "server"@);
    assert(t[3].0@ == "session"@);
    assert(t[4].0@ == "application"@);
    assert forall|i: int| 0 <= i < t.len() && #[trigger] t[i].0@ == n implies object_doc_spec(name)
        == Some("**`"@ + t[i].1@ + "`**\n\n"@ + t[i].2@) by {
        assert forall|j: int| 0 <= j < i implies (#[trigger] t[j]).0@ != n by {
            assert(t[j].0@ != t[i].0@) by {
                if t[j].0@.len() == t[i].0@.len() {
                    assert(t[j].0@[0] != t[i].0@[0]);
                }
            }
        }
        lemma_name_entry_at(t, n, i);
        assert(doc_markdown(Seq::empty(), t[i].1@, t[i].2@) =~= "**`"@ + t[i].1@ + "`**\n\n"@ + t[i].2@);
    }
    if is_intrinsic_object(n) {
        if n == "response"@ { assert(t[0].0@ == n); }
        if n == "request"@ { assert(t[1].0@ == n); }
        if n == "server"@ { assert(t[2].0@ == n); }
        if n == "session"@ { assert(t[3].0@ == n); }
        if n == "application"@ { assert(t[4].0@ == n); }
    }
}

/// ADO docs exist exactly for the listed lowercase members; each starts
/// with "**`ADODB.".
pub proof fn law_ado_member_doc_table(member: Seq<char>)
    ensures
        ado_member_doc_spec(member) is Some <==> exists|i: int|
            0 <= i < ADO_MEMBER_DOCS@.len() && #[trigger] ADO_MEMBER_DOCS@[i].0@ == ascii_lower_seq(member),
        ado_member_doc_spec(member) matches Some(s) ==> s.take(9) == "**`"@ + "ADODB."@,
{
    lemma_name_entry(ADO_MEMBER_DOCS@, ascii_lower_seq(member));
    if let Some((t, d)) = name_entry(ADO_MEMBER_DOCS@, ascii_lower_seq(member)) {
        reveal_strlit("ADODB.");
        lemma_markdown_prefix("ADODB."@, t, d);
    }
}


/// The number of set flags.
pub open spec fn count_true(k: Seq<bool>) -> nat
    decreases k.len(),
{
    if k.len() == 0 {
        0
    } else {
        count_true(k.drop_last()) + if k.last() {
            1nat
        } else {
            0nat
        }
    }
}

proof fn lemma_select_len<A>(v: Seq<A>, keep: Seq<bool>)
    requires
        v.len() == keep.len(),
    ensures
        select(v, keep).len() == count_true(keep),
    decreases v.len(),
{
    if v.len() > 0 {
        lemma_select_len(v.drop_last(), keep.drop_last());
    }
}

proof fn lemma_count_take(k: Seq<bool>, n: int)
    requires
        0 <= n <= k.len(),
    ensures
        count_true(k.take(n)) <= count_true(k),
    decreases k.len() - n,
{
    if n < k.len() {
        lemma_count_take(k, n + 1);
        assert(k.take(n + 1).drop_last() =~= k.take(n));
    } else {
        assert(k.take(n) =~= k);
    }
}

/// A workspace symbol search lists as many symbols as match the query and
/// have a URL, up to the limit; when fewer than the limit match, it lists
/// every one of them, in index order.
pub proof fn law_workspace_symbol_count(
    s: State,
    idx: Seq<(Seq<char>, FileIndexView)>,
    query: Seq<char>,
    uris: Seq<Option<lsp_types::Url>>,
    r: Seq<(Seq<char>, SymbolKind, Seq<char>, Range)>,
    n: int,
)
    requires
        0 <= n <= symbol_items(s, idx, query).len(),
        lists_symbols(symbol_items(s, idx, query), r, symbol_url_flags(idx, uris, symbol_items(s, idx, query).take(n))),
    ensures
        ({
            let all = symbol_items(s, idx, query);
            let flags = symbol_url_flags(idx, uris, all);
            &&& r.len() == if count_true(flags) < crate::lsp::MAX_WORKSPACE_SYMBOLS {
                count_true(flags)
            } else {
                crate::lsp::MAX_WORKSPACE_SYMBOLS as nat
            }
            &&& count_true(flags) < crate::lsp::MAX_WORKSPACE_SYMBOLS ==> r == select(all, flags)
        }),
{
    let all = symbol_items(s, idx, query);
    let flags = symbol_url_flags(idx, uris, all);
    let keep = symbol_url_flags(idx, uris, all.take(n));
    assert(keep =~= flags.take(n));
    lemma_select_len(all.take(n), keep);
    lemma_count_take(flags, n);
    if n == all.len() {
        assert(all.take(n) =~= all);
        assert(flags.take(n) =~= flags);
    }
}


#[verifier::spinoff_prover]
#[verifier::rlimit(40)]
proof fn lemma_file_symbols(ls: Seq<Seq<char>>)
    requires
        ls.len() <= u32::MAX + 1,
    ensures
        forall|i: int, j: int|
            0 <= i < j < file_symbols(ls).len() ==> (#[trigger] file_symbols(ls)[i]).line < (#[trigger] file_symbols(ls)[j]).line,
        forall|i: int|
            0 <= i < file_symbols(ls).len() ==> (#[trigger] file_symbols(ls)[i]).line < ls.len() && line_symbol(
                ls[file_symbols(ls)[i].line as int],
                file_symbols(ls)[i].line as int,
            ) == Some(file_symbols(ls)[i]),
        forall|k: int|
            0 <= k < ls.len() && #[trigger] line_symbol(ls[k], k) is Some ==> exists|i: int|
                0 <= i < file_symbols(ls).len() && #[trigger] file_symbols(ls)[i].line == k,
    decreases ls.len(),
{
    if ls.len() > 0 {
        let d = ls.drop_last();
        lemma_file_symbols(d);
        let before = file_symbols(d);
        let all = file_symbols(ls);
        let k = ls.len() - 1;
        assert forall|j: int| 0 <= j < d.len() implies d[j] == ls[j] by {}
        match line_symbol(ls.last(), k) {
            Some(sym) => {
                assert(all == before.push(sym));
                assert(sym.line == k as u32);
                assert(all[before.len() as int] == sym);
                assert forall|i: int, j: int| 0 <= i < j < all.len() implies (#[trigger] all[i]).line < (#[trigger] all[j]).line by {
                    assert(all[i] == before[i]);
                    if j < before.len() {
                        assert(all[j] == before[j]);
                    }
                }
                assert forall|i: int| 0 <= i < all.len() implies (#[trigger] all[i]).line < ls.len() && line_symbol(
                    ls[all[i].line as int],
                    all[i].line as int,
                ) == Some(all[i]) by {
                    if i < before.len() {
                        assert(all[i] == before[i]);
                    }
                }
                assert forall|m: int| 0 <= m < ls.len() && #[trigger] line_symbol(ls[m], m) is Some implies exists|i: int|
                    0 <= i < all.len() && #[trigger] all[i].line == m by {
                    if m < k {
                        assert(line_symbol(d[m], m) is Some);
                        let i = choose|i: int| 0 <= i < before.len() && #[trigger] before[i].line == m;
                        assert(all[i] == before[i]);
                    } else {
                        assert(all[before.len() as int].line == m);
                    }
                }
            },
            None => {
                assert(all == before);
                assert forall|m: int| 0 <= m < ls.len() && #[trigger] line_symbol(ls[m], m) is Some implies exists|i: int|
                    0 <= i < all.len() && #[trigger] all[i].line == m by {
                    assert(m < k);
                    assert(line_symbol(d[m], m) is Some);
                }
            },
        }
    }
}

/// The definitions of a file stand on strictly increasing lines, one at most
/// per line; each is the definition its line's grammar gives (its name the
/// characters the name span covers, a name-start character and then the
/// longest run of word characters; its signature the trimmed line), and every
/// line whose grammar gives a definition has one (for a file of at most
/// `u32::MAX + 1` lines, whose line numbers fit in `u32`).
#[verifier::spinoff_prover]
#[verifier::rlimit(30)]
pub proof fn law_parsed_definitions(
    text: Seq<char>,
    path: Seq<char>,
    web_root: Seq<char>,
    files: (Seq<Seq<char>>, Seq<(Seq<char>, Seq<char>)>),
)
    requires
        crate::text::lines(text).len() <= u32::MAX + 1,
    ensures
        ({
            let ls = crate::text::lines(text);
            let syms = parse_spec(text, path, web_root, files).symbols;
            &&& forall|i: int, j: int| 0 <= i < j < syms.len() ==> (#[trigger] syms[i]).line < (#[trigger] syms[j]).line
            &&& forall|i: int|
                0 <= i < syms.len() ==> (#[trigger] syms[i]).line < ls.len() && line_symbol(
                    ls[syms[i].line as int],
                    syms[i].line as int,
                ) == Some(syms[i])
            &&& forall|k: int|
                0 <= k < ls.len() && #[trigger] line_symbol(ls[k], k) is Some ==> exists|i: int|
                    0 <= i < syms.len() && #[trigger] syms[i].line == k
            &&& forall|i: int|
                0 <= i < syms.len() ==> (#[trigger] syms[i]).name.len() > 0 && crate::grammar::is_name_start(syms[i].name[0])
                    && forall|j: int| 0 < j < syms[i].name.len() ==> crate::grammar::is_word_char(#[trigger] syms[i].name[j])
        }),
{
    let ls = crate::text::lines(text);
    let syms = parse_spec(text, path, web_root, files).symbols;
    lemma_file_symbols(ls);
    assert forall|i: int| 0 <= i < syms.len() implies (#[trigger] syms[i]).name.len() > 0 && crate::grammar::is_name_start(syms[i].name[0])
        && forall|j: int| 0 < j < syms[i].name.len() ==> crate::grammar::is_word_char(#[trigger] syms[i].name[j]) by {
        let l = ls[syms[i].line as int];
        crate::grammar::lemma_definition_name(l);
        let (k, s, e) = crate::grammar::definition_match(l)->0;
        assert(syms[i].name == l.subrange(s, e));
        assert forall|j: int| 0 < j < syms[i].name.len() implies crate::grammar::is_word_char(#[trigger] syms[i].name[j]) by {
            assert(syms[i].name[j] == l[s + j]);
        }
    }
}


/// `inc` is what a match of the directive grammar on line `l` gives: its path
/// the characters between the quotes, its spans the byte offsets of the
/// match, its kind the keyword matched.
pub open spec fn directive_on(l: Seq<char>, inc: IncludeView) -> bool {
    exists|m: crate::grammar::IncludeMatch|
        #[trigger] crate::grammar::include_shape(l, m) && inc.raw_path == l.subrange(m.3, m.4) && inc.path_span == (
            byte_at(l, m.3),
            byte_at(l, m.4),
        ) && inc.directive_span == (byte_at(l, m.0), byte_at(l, m.1)) && inc.kind == (if m.2 {
            IncludeKind::File
        } else {
            IncludeKind::Virtual
        })
}

/// The spans of `inc` nest: the path lies strictly inside the directive.
pub open spec fn spans_nest(inc: IncludeView) -> bool {
    inc.directive_span.0 < inc.path_span.0 <= inc.path_span.1 < inc.directive_span.1
}

proof fn lemma_byte_at_mono(l: Seq<char>, a: int, b: int)
    requires
        0 <= a <= b <= l.len(),
        byte_len(l) <= usize::MAX,
    ensures
        byte_at(l, a) <= byte_at(l, b),
        a < b ==> byte_at(l, a) < byte_at(l, b),
{
    crate::text::lemma_byte_len_prefix_mono(l, a, b);
    crate::text::lemma_byte_len_prefix_mono(l, b, l.len() as int);
    assert(l.take(l.len() as int) =~= l);
}

proof fn lemma_line_includes(
    l: Seq<char>,
    k: int,
    path: Seq<char>,
    web_root: Seq<char>,
    files: (Seq<Seq<char>>, Seq<(Seq<char>, Seq<char>)>),
)
    requires
        byte_len(l) <= usize::MAX,
        0 <= k <= u32::MAX,
    ensures
        forall|a: int|
            0 <= a < line_includes(l, k, path, web_root, files).len() ==> {
                let inc = #[trigger] line_includes(l, k, path, web_root, files)[a];
                &&& inc.line == k
                &&& directive_on(l, inc)
                &&& spans_nest(inc)
                &&& inc.resolved == resolve_include_spec(path, web_root, inc.kind, inc.raw_path, files)
            },
        forall|a: int, b: int|
            0 <= a < b < line_includes(l, k, path, web_root, files).len() ==> (#[trigger] line_includes(
                l,
                k,
                path,
                web_root,
                files,
            )[a]).directive_span.1 <= (#[trigger] line_includes(l, k, path, web_root, files)[b]).directive_span.0,
{
    let ms = crate::grammar::include_matches(l, 0);
    let v = line_includes(l, k, path, web_root, files);
    crate::grammar::lemma_include_matches(l, 0);
    assert forall|a: int| 0 <= a < v.len() implies {
        let inc = #[trigger] v[a];
        &&& inc.line == k
        &&& directive_on(l, inc)
        &&& spans_nest(inc)
        &&& inc.resolved == resolve_include_spec(path, web_root, inc.kind, inc.raw_path, files)
    } by {
        let m = ms[a];
        assert(v[a] == include_view_of(l, k, m, path, web_root, files));
        assert(crate::grammar::include_shape(l, m));
        lemma_byte_at_mono(l, m.0, m.3);
        lemma_byte_at_mono(l, m.3, m.4);
        lemma_byte_at_mono(l, m.4, m.1);
    }
    assert forall|a: int, b: int| 0 <= a < b < v.len() implies (#[trigger] v[a]).directive_span.1 <= (#[trigger] v[b]).directive_span.0 by {
        assert(ms[a].1 <= ms[b].0);
        assert(crate::grammar::include_shape(l, ms[b]));
        lemma_byte_at_mono(l, ms[a].1, ms[b].0);
    }
}

proof fn lemma_file_includes(
    ls: Seq<Seq<char>>,
    path: Seq<char>,
    web_root: Seq<char>,
    files: (Seq<Seq<char>>, Seq<(Seq<char>, Seq<char>)>),
)
    requires
        ls.len() <= u32::MAX + 1,
        forall|k: int| 0 <= k < ls.len() ==> byte_len(#[trigger] ls[k]) <= usize::MAX,
    ensures
        forall|i: int|
            0 <= i < file_includes(ls, path, web_root, files).len() ==> {
                let inc = #[trigger] file_includes(ls, path, web_root, files)[i];
                &&& inc.line < ls.len()
                &&& directive_on(ls[inc.line as int], inc)
                &&& spans_nest(inc)
                &&& inc.resolved == resolve_include_spec(path, web_root, inc.kind, inc.raw_path, files)
            },
        forall|i: int, j: int|
            0 <= i < j < file_includes(ls, path, web_root, files).len() ==> {
                let a = #[trigger] file_includes(ls, path, web_root, files)[i];
                let b = #[trigger] file_includes(ls, path, web_root, files)[j];
                a.line < b.line || (a.line == b.line && a.directive_span.1 <= b.directive_span.0)
            },
    decreases ls.len(),
{
    if ls.len() > 0 {
        let d = ls.drop_last();
        let k = ls.len() - 1;
        assert forall|j: int| 0 <= j < d.len() implies #[trigger] d[j] == ls[j] by {}
        lemma_file_includes(d, path, web_root, files);
        lemma_line_includes(ls.last(), k, path, web_root, files);
        let before = file_includes(d, path, web_root, files);
        let tail = line_includes(ls.last(), k, path, web_root, files);
        let all = file_includes(ls, path, web_root, files);
        assert(all == before + tail);
        assert forall|i: int| 0 <= i < all.len() implies {
            let inc = #[trigger] all[i];
            &&& inc.line < ls.len()
            &&& directive_on(ls[inc.line as int], inc)
            &&& spans_nest(inc)
            &&& inc.resolved == resolve_include_spec(path, web_root, inc.kind, inc.raw_path, files)
        } by {
            if i < before.len() {
                assert(all[i] == before[i]);
                assert(ls[before[i].line as int] == d[before[i].line as int]);
            } else {
                assert(all[i] == tail[i - before.len()]);
            }
        }
        assert forall|i: int, j: int| 0 <= i < j < all.len() implies {
            let a = #[trigger] all[i];
            let b = #[trigger] all[j];
            a.line < b.line || (a.line == b.line && a.directive_span.1 <= b.directive_span.0)
        } by {
            if j < before.len() {
                assert(all[i] == before[i]);
                assert(all[j] == before[j]);
            } else if i < before.len() {
                assert(all[i] == before[i]);
                assert(all[j] == tail[j - before.len()]);
            } else {
                assert(all[i] == tail[i - before.len()]);
                assert(all[j] == tail[j - before.len()]);
            }
        }
    }
}

/// Each include directive of a file stands on one of its lines as a match of
/// the directive grammar: its path the characters between the quotes, its
/// path span strictly inside its directive span, which opens with `<!--` and
/// closes with `-->`; it resolves as its kind and path say. The directives come
/// in order of line and, on one line, of position, without overlapping (for
/// a text held in memory, of at most `u32::MAX + 1` lines).
pub proof fn law_parsed_includes(
    text: Seq<char>,
    path: Seq<char>,
    web_root: Seq<char>,
    files: (Seq<Seq<char>>, Seq<(Seq<char>, Seq<char>)>),
)
    requires
        crate::text::lines(text).len() <= u32::MAX + 1,
        byte_len(text) <= usize::MAX,
    ensures
        ({
            let ls = crate::text::lines(text);
            let incs = parse_spec(text, path, web_root, files).includes;
            &&& forall|i: int|
                0 <= i < incs.len() ==> {
                    let inc = #[trigger] incs[i];
                    &&& inc.line < ls.len()
                    &&& directive_on(ls[inc.line as int], inc)
                    &&& spans_nest(inc)
                    &&& inc.resolved == resolve_include_spec(path, web_root, inc.kind, inc.raw_path, files)
                }
            &&& forall|i: int, j: int|
                0 <= i < j < incs.len() ==> {
                    let a = #[trigger] incs[i];
                    let b = #[trigger] incs[j];
                    a.line < b.line || (a.line == b.line && a.directive_span.1 <= b.directive_span.0)
                }
        }),
{
    let ls = crate::text::lines(text);
    assert forall|k: int| 0 <= k < ls.len() implies byte_len(#[trigger] ls[k]) <= usize::MAX by {
        lemma_lines_bytes(text, k);
    }
    lemma_file_includes(ls, path, web_root, files);
}


proof fn lemma_includes_to_complete(file: Seq<char>, incs: Seq<IncludeView>, target: Seq<char>)
    ensures
        forall|a: int|
            0 <= a < incs.len() && (#[trigger] incs[a]).resolved == Some(target) ==> includes_to(file, incs, target).contains(
                (file, incs[a]),
            ),
    decreases incs.len(),
{
    if incs.len() > 0 {
        let d = incs.drop_last();
        lemma_includes_to_complete(file, d, target);
        let before = includes_to(file, d, target);
        let all = includes_to(file, incs, target);
        assert forall|a: int| 0 <= a < incs.len() && (#[trigger] incs[a]).resolved == Some(target) implies all.contains(
            (file, incs[a]),
        ) by {
            if a < d.len() {
                assert(d[a] == incs[a]);
                let k = choose|k: int| 0 <= k < before.len() && before[k] == (file, d[a]);
                assert(all[k] == before[k]);
            } else {
                assert(all[before.len() as int] == (file, incs.last()));
            }
        }
    }
}

/// Every include directive of the index, with the file it stands in, in
/// index order and in the order of each file's directives.
pub open spec fn all_directives(idx: Seq<(Seq<char>, FileIndexView)>) -> Seq<(Seq<char>, IncludeView)>
    decreases idx.len(),
{
    if idx.len() == 0 {
        Seq::empty()
    } else {
        all_directives(idx.drop_last()) + idx.last().1.includes.map_values(|inc: IncludeView| (idx.last().0, inc))
    }
}

/// A directive (with its file) that resolves to `target`.
pub open spec fn resolves_to(target: Seq<char>) -> spec_fn((Seq<char>, IncludeView)) -> bool {
    |x: (Seq<char>, IncludeView)| x.1.resolved == Some(target)
}

proof fn lemma_includes_to_filter(file: Seq<char>, incs: Seq<IncludeView>, target: Seq<char>)
    ensures
        includes_to(file, incs, target) == incs.map_values(|inc: IncludeView| (file, inc)).filter(resolves_to(target)),
    decreases incs.len(),
{
    let f = |inc: IncludeView| (file, inc);
    if incs.len() == 0 {
        reveal(Seq::filter);
        assert(incs.map_values(f) =~= Seq::<(Seq<char>, IncludeView)>::empty());
    } else {
        let d = incs.drop_last();
        lemma_includes_to_filter(file, d, target);
        assert(incs.map_values(f) =~= d.map_values(f).push((file, incs.last())));
        d.map_values(f).lemma_filter_push((file, incs.last()), resolves_to(target));
        if incs.last().resolved == Some(target) {
            assert(includes_to(file, incs, target) =~= includes_to(file, d, target).push((file, incs.last())));
        } else {
            assert(includes_to(file, incs, target) =~= includes_to(file, d, target));
        }
    }
}

/// The includers of `target` are exactly the directives of the index that
/// resolve to it, each with its file, as often as they occur and in index
/// order; as multisets too, every such directive counted once per occurrence.
pub proof fn law_includers_are_resolving_directives(idx: Seq<(Seq<char>, FileIndexView)>, target: Seq<char>)
    ensures
        includers_spec(idx, target) == all_directives(idx).filter(resolves_to(target)),
        includers_spec(idx, target).to_multiset() == all_directives(idx).filter(resolves_to(target)).to_multiset(),
    decreases idx.len(),
{
    if idx.len() > 0 {
        let d = idx.drop_last();
        law_includers_are_resolving_directives(d, target);
        lemma_includes_to_filter(idx.last().0, idx.last().1.includes, target);
        let tail = idx.last().1.includes.map_values(|inc: IncludeView| (idx.last().0, inc));
        Seq::filter_distributes_over_add(all_directives(d), tail, resolves_to(target));
    } else {
        reveal(Seq::filter);
    }
}

/// Every include directive of an indexed file that resolves to `target`
/// is among the includers of `target`.
pub proof fn law_includers_complete(idx: Seq<(Seq<char>, FileIndexView)>, target: Seq<char>)
    ensures
        forall|k: int, a: int|
            0 <= k < idx.len() && 0 <= a < idx[k].1.includes.len() && (#[trigger] idx[k].1.includes[a]).resolved == Some(
                target,
            ) ==> includers_spec(idx, target).contains((idx[k].0, idx[k].1.includes[a])),
    decreases idx.len(),
{
    if idx.len() > 0 {
        let d = idx.drop_last();
        law_includers_complete(d, target);
        lemma_includes_to_complete(idx.last().0, idx.last().1.includes, target);
        let before = includers_spec(d, target);
        let tail = includes_to(idx.last().0, idx.last().1.includes, target);
        let all = includers_spec(idx, target);
        assert forall|k: int, a: int|
            0 <= k < idx.len() && 0 <= a < idx[k].1.includes.len() && (#[trigger] idx[k].1.includes[a]).resolved == Some(
                target,
            ) implies all.contains((idx[k].0, idx[k].1.includes[a])) by {
            if k < d.len() {
                assert(d[k] == idx[k]);
                assert(d[k].1.includes[a] == idx[k].1.includes[a]);
                let m = choose|m: int| 0 <= m < before.len() && before[m] == (d[k].0, d[k].1.includes[a]);
                assert(all[m] == before[m]);
            } else {
                assert(idx[k] == idx.last());
                let m = choose|m: int| 0 <= m < tail.len() && tail[m] == (idx.last().0, idx.last().1.includes[a]);
                assert(all[before.len() + m] == tail[m]);
            }
        }
    }
}


/// `it` is the workspace symbol that symbol `m` of `syms`, in `file`, gives
/// for `query`: the symbol matches the query, its line exists in the file's
/// text, and `it` holds its name, kind, file and the range of its name.
pub open spec fn symbol_item_of(
    s: State,
    file: Seq<char>,
    syms: Seq<SymbolView>,
    query: Seq<char>,
    m: int,
    it: (Seq<char>, SymbolKind, Seq<char>, Range),
) -> bool {
    &&& 0 <= m < syms.len()
    &&& query_matches(query, syms[m].name)
    &&& s.text_spec(file) is Some
    &&& (syms[m].line as int) < crate::text::lines(s.text_spec(file)->0).len()
    &&& it == (
        syms[m].name,
        syms[m].kind,
        file,
        crate::position::span_range_spec(
            syms[m].line,
            crate::text::lines(s.text_spec(file)->0)[syms[m].line as int],
            syms[m].name_span,
        ),
    )
}

/// `it` comes from some symbol of `syms`, in `file`.
pub open spec fn from_file(
    s: State,
    file: Seq<char>,
    syms: Seq<SymbolView>,
    query: Seq<char>,
    it: (Seq<char>, SymbolKind, Seq<char>, Range),
) -> bool {
    exists|m: int| #[trigger] symbol_item_of(s, file, syms, query, m, it)
}

/// `it` comes from some symbol of some indexed file.
pub open spec fn from_index(
    s: State,
    idx: Seq<(Seq<char>, FileIndexView)>,
    query: Seq<char>,
    it: (Seq<char>, SymbolKind, Seq<char>, Range),
) -> bool {
    exists|k: int, m: int| 0 <= k < idx.len() && #[trigger] symbol_item_of(s, idx[k].0, idx[k].1.symbols, query, m, it)
}

proof fn lemma_file_items_from(s: State, file: Seq<char>, syms: Seq<SymbolView>, query: Seq<char>)
    ensures
        forall|i: int|
            0 <= i < file_symbol_items(s, file, syms, query).len() ==> from_file(
                s,
                file,
                syms,
                query,
                #[trigger] file_symbol_items(s, file, syms, query)[i],
            ),
    decreases syms.len(),
{
    if syms.len() > 0 {
        let d = syms.drop_last();
        lemma_file_items_from(s, file, d, query);
        let before = file_symbol_items(s, file, d, query);
        let all = file_symbol_items(s, file, syms, query);
        assert forall|i: int| 0 <= i < all.len() implies from_file(s, file, syms, query, #[trigger] all[i]) by {
            if i < before.len() {
                assert(all[i] == before[i]);
                assert(from_file(s, file, d, query, before[i]));
                let m = choose|m: int| #[trigger] symbol_item_of(s, file, d, query, m, before[i]);
                assert(d[m] == syms[m]);
                assert(symbol_item_of(s, file, syms, query, m, all[i]));
            } else {
                let m = syms.len() - 1;
                assert(syms[m] == syms.last());
                assert(symbol_item_of(s, file, syms, query, m, all[i]));
            }
        }
    }
}

proof fn lemma_symbol_items_from(s: State, idx: Seq<(Seq<char>, FileIndexView)>, query: Seq<char>)
    ensures
        forall|i: int| 0 <= i < symbol_items(s, idx, query).len() ==> from_index(s, idx, query, #[trigger] symbol_items(s, idx, query)[i]),
    decreases idx.len(),
{
    if idx.len() > 0 {
        let d = idx.drop_last();
        lemma_symbol_items_from(s, d, query);
        lemma_file_items_from(s, idx.last().0, idx.last().1.symbols, query);
        let before = symbol_items(s, d, query);
        let tail = file_symbol_items(s, idx.last().0, idx.last().1.symbols, query);
        let all = symbol_items(s, idx, query);
        assert forall|i: int| 0 <= i < all.len() implies from_index(s, idx, query, #[trigger] all[i]) by {
            if i < before.len() {
                assert(all[i] == before[i]);
                assert(from_index(s, d, query, before[i]));
                let (k, m) = choose|k: int, m: int| 0 <= k < d.len() && #[trigger] symbol_item_of(s, d[k].0, d[k].1.symbols, query, m, before[i]);
                assert(d[k] == idx[k]);
                assert(symbol_item_of(s, idx[k].0, idx[k].1.symbols, query, m, all[i]));
            } else {
                assert(all[i] == tail[i - before.len()]);
                assert(from_file(s, idx.last().0, idx.last().1.symbols, query, tail[i - before.len()]));
                let m = choose|m: int| #[trigger] symbol_item_of(s, idx.last().0, idx.last().1.symbols, query, m, tail[i - before.len()]);
                assert(idx[idx.len() - 1] == idx.last());
                assert(symbol_item_of(s, idx[idx.len() - 1].0, idx[idx.len() - 1].1.symbols, query, m, all[i]));
            }
        }
    }
}

/// Every symbol that a workspace symbol search lists comes from a symbol of
/// an indexed file that matches the query: its name, kind, file, and the
/// range of its name on its line of the file's text.
pub proof fn law_workspace_symbols_from_index(
    s: State,
    idx: Seq<(Seq<char>, FileIndexView)>,
    query: Seq<char>,
    r: Seq<(Seq<char>, SymbolKind, Seq<char>, Range)>,
    keep: Seq<bool>,
)
    requires
        lists_symbols(symbol_items(s, idx, query), r, keep),
    ensures
        forall|j: int| 0 <= j < r.len() ==> from_index(s, idx, query, #[trigger] r[j]),
{
    let items = symbol_items(s, idx, query);
    let pre = items.take(keep.len() as int);
    lemma_select_from(pre, keep);
    lemma_symbol_items_from(s, idx, query);
    assert forall|j: int| 0 <= j < r.len() implies from_index(s, idx, query, #[trigger] r[j]) by {
        assert(pre.contains(r[j]));
        let k = choose|k: int| 0 <= k < pre.len() && pre[k] == r[j];
        assert(items[k] == pre[k]);
    }
}


proof fn lemma_trim_start_edge(s: Seq<char>)
    ensures
        trim_start(s).len() == 0 || !is_white_space(trim_start(s)[0]),
        trim_start(s).len() <= s.len(),
        trim_start(s) == s.subrange(s.len() - trim_start(s).len(), s.len() as int),
    decreases s.len(),
{
    if s.len() > 0 && is_white_space(s[0]) {
        lemma_trim_start_edge(s.drop_first());
        let t = trim_start(s.drop_first());
        assert(s.drop_first().subrange(s.drop_first().len() - t.len(), s.drop_first().len() as int) =~= s.subrange(
            s.len() - t.len(),
            s.len() as int,
        ));
    } else {
        assert(s.subrange(0, s.len() as int) =~= s);
    }
}

proof fn lemma_trim_end_edge(s: Seq<char>)
    ensures
        trim_end(s).len() == 0 || !is_white_space(trim_end(s).last()),
        trim_end(s).len() <= s.len(),
        trim_end(s) == s.take(trim_end(s).len() as int),
    decreases s.len(),
{
    if s.len() > 0 && is_white_space(s.last()) {
        lemma_trim_end_edge(s.drop_last());
        let t = trim_end(s.drop_last());
        assert(s.drop_last().take(t.len() as int) =~= s.take(t.len() as int));
    } else {
        assert(s.take(s.len() as int) =~= s);
    }
}

proof fn lemma_cleaned_stable(raw: Seq<char>)
    ensures
        backslashes_to_slashes(trim(backslashes_to_slashes(trim(raw)))) == backslashes_to_slashes(trim(raw)),
{
    let a = trim_start(raw);
    lemma_trim_start_edge(raw);
    lemma_trim_end_edge(a);
    let t = trim(raw);
    assert(t == trim_end(a));
    if t.len() > 0 {
        assert(t[0] == a.take(t.len() as int)[0]);
    }
    let c = backslashes_to_slashes(t);
    assert(c.len() == t.len());
    if c.len() > 0 {
        assert(!is_white_space(c[0]));
        assert(!is_white_space(c.last()));
    }
    assert(trim_start(c) == c);
    assert(trim_end(c) == c);
    assert(backslashes_to_slashes(c) =~= c);
}

/// An include path resolves as its cleaned form does: surrounding whitespace
/// and backslashes do not change where it leads.
pub proof fn law_include_cleaning_is_stable(
    from_file: Seq<char>,
    web_root: Seq<char>,
    kind: IncludeKind,
    raw: Seq<char>,
    files: (Seq<Seq<char>>, Seq<(Seq<char>, Seq<char>)>),
)
    ensures
        resolve_include_spec(from_file, web_root, kind, raw, files) == resolve_include_spec(
            from_file,
            web_root,
            kind,
            backslashes_to_slashes(trim(raw)),
            files,
        ),
{
    lemma_cleaned_stable(raw);
}

/// Where an include leads: its path is first cleaned (surrounding whitespace
/// dropped, backslashes read as `/`); a `file=` path that does not start with
/// `/` is joined to the directory of the including file (nothing when that
/// file has no parent); any other path is joined, without its leading `/`s,
/// to the web root; the joined path then resolves against the known files.
/// What it resolves to is a known file, or the file a known link leads to.
pub proof fn law_resolve_include(
    from_file: Seq<char>,
    web_root: Seq<char>,
    kind: IncludeKind,
    raw: Seq<char>,
    files: (Seq<Seq<char>>, Seq<(Seq<char>, Seq<char>)>),
)
    ensures
        ({
            let c = backslashes_to_slashes(trim(raw));
            let r = resolve_include_spec(from_file, web_root, kind, raw, files);
            &&& r == resolve_include_spec(from_file, web_root, kind, c, files)
            &&& kind == IncludeKind::File && !(c.len() > 0 && c[0] == '/') ==> r == match crate::paths::parent_spec(from_file) {
                Some(dir) => resolve_existing_spec(files.0, files.1, crate::paths::join_spec(dir, c)),
                None => None,
            }
            &&& !(kind == IncludeKind::File && !(c.len() > 0 && c[0] == '/')) ==> r == resolve_existing_spec(
                files.0,
                files.1,
                crate::paths::join_spec(web_root, crate::parse::trim_start_slashes(c)),
            )
            &&& r matches Some(p) ==> files.0.contains(p) || exists|k: int| 0 <= k < files.1.len() && #[trigger] files.1[k].1 == p
        }),
{
    lemma_cleaned_stable(raw);
    if let Some(cand) = crate::parse::include_candidate(from_file, web_root, kind, raw) {
        law_resolution_yields_known_files(files.0, files.1, cand);
    }
}

/// The places in `v` of what `select` keeps: strictly increasing, each one
/// marked kept.
proof fn lemma_select_positions<A>(v: Seq<A>, keep: Seq<bool>) -> (pos: Seq<int>)
    requires
        v.len() == keep.len(),
    ensures
        pos.len() == select(v, keep).len(),
        forall|j: int|
            0 <= j < pos.len() ==> 0 <= #[trigger] pos[j] < v.len() && keep[pos[j]] && select(v, keep)[j]
                == v[pos[j]],
        forall|j: int, k: int| 0 <= j < k < pos.len() ==> pos[j] < pos[k],
    decreases v.len(),
{
    if v.len() == 0 {
        Seq::empty()
    } else {
        let p0 = lemma_select_positions(v.drop_last(), keep.drop_last());
        if keep.last() {
            p0.push(v.len() - 1)
        } else {
            p0
        }
    }
}

/// `a` comes before `b` in index order: an earlier file, or the same file
/// and an earlier symbol.
pub open spec fn lex_lt(a: (int, int), b: (int, int)) -> bool {
    a.0 < b.0 || (a.0 == b.0 && a.1 < b.1)
}

proof fn lemma_file_item_sources(s: State, file: Seq<char>, syms: Seq<SymbolView>, query: Seq<char>) -> (ms: Seq<int>)
    ensures
        ms.len() == file_symbol_items(s, file, syms, query).len(),
        forall|i: int|
            0 <= i < ms.len() ==> symbol_item_of(s, file, syms, query, #[trigger] ms[i], file_symbol_items(s, file, syms, query)[i]),
        forall|i: int, j: int| 0 <= i < j < ms.len() ==> ms[i] < ms[j],
    decreases syms.len(),
{
    if syms.len() == 0 {
        Seq::empty()
    } else {
        let d = syms.drop_last();
        let m0 = lemma_file_item_sources(s, file, d, query);
        let before = file_symbol_items(s, file, d, query);
        let all = file_symbol_items(s, file, syms, query);
        assert forall|i: int| 0 <= i < m0.len() implies symbol_item_of(s, file, syms, query, #[trigger] m0[i], before[i]) by {
            assert(symbol_item_of(s, file, d, query, m0[i], before[i]));
            assert(d[m0[i]] == syms[m0[i]]);
        }
        if all.len() == before.len() {
            assert(all =~= before);
            m0
        } else {
            let ms = m0.push(syms.len() - 1);
            assert(syms[syms.len() - 1] == syms.last());
            assert forall|i: int| 0 <= i < ms.len() implies symbol_item_of(s, file, syms, query, #[trigger] ms[i], all[i]) by {
                if i < m0.len() {
                    assert(all[i] == before[i]);
                }
            }
            ms
        }
    }
}

proof fn lemma_item_sources(s: State, idx: Seq<(Seq<char>, FileIndexView)>, query: Seq<char>) -> (ks: Seq<(int, int)>)
    ensures
        ks.len() == symbol_items(s, idx, query).len(),
        forall|i: int|
            0 <= i < ks.len() ==> 0 <= (#[trigger] ks[i]).0 < idx.len() && symbol_item_of(
                s,
                idx[ks[i].0].0,
                idx[ks[i].0].1.symbols,
                query,
                ks[i].1,
                symbol_items(s, idx, query)[i],
            ),
        forall|i: int, j: int| 0 <= i < j < ks.len() ==> lex_lt(ks[i], ks[j]),
    decreases idx.len(),
{
    if idx.len() == 0 {
        Seq::empty()
    } else {
        let d = idx.drop_last();
        let k0 = lemma_item_sources(s, d, query);
        let last = idx.len() - 1;
        assert(idx[last] == idx.last());
        let ms = lemma_file_item_sources(s, idx.last().0, idx.last().1.symbols, query);
        let tail = ms.map_values(|m: int| (last, m));
        let ks = k0 + tail;
        let before = symbol_items(s, d, query);
        let items = symbol_items(s, idx, query);
        let fi = file_symbol_items(s, idx.last().0, idx.last().1.symbols, query);
        assert(items == before + fi);
        assert forall|i: int| 0 <= i < ks.len() implies 0 <= (#[trigger] ks[i]).0 < idx.len() && symbol_item_of(
            s,
            idx[ks[i].0].0,
            idx[ks[i].0].1.symbols,
            query,
            ks[i].1,
            items[i],
        ) by {
            if i < k0.len() {
                assert(ks[i] == k0[i]);
                assert(items[i] == before[i]);
                assert(d[k0[i].0] == idx[k0[i].0]);
            } else {
                assert(ks[i] == (last, ms[i - k0.len()]));
                assert(items[i] == fi[i - k0.len()]);
            }
        }
        assert forall|i: int, j: int| 0 <= i < j < ks.len() implies lex_lt(ks[i], ks[j]) by {
            if j < k0.len() {
                assert(ks[i] == k0[i] && ks[j] == k0[j]);
            } else if i < k0.len() {
                assert(ks[i] == k0[i]);
                assert(k0[i].0 < d.len());
                assert(ks[j] == (last, ms[j - k0.len()]));
            } else {
                assert(ks[i] == (last, ms[i - k0.len()]));
                assert(ks[j] == (last, ms[j - k0.len()]));
            }
        }
        ks
    }
}

/// Every symbol that a workspace symbol search lists comes from its own
/// symbol of an indexed file: `src[j]` is the place (file in the index,
/// symbol in that file) of the `j`-th entry, the places strictly increase in
/// index order, so no symbol is listed twice, and each entry has that
/// symbol's name and kind, the file's path, and the range of the name on its
/// line of the file's text; the symbol's name matches the query.
pub proof fn law_workspace_symbols_distinct(
    s: State,
    idx: Seq<(Seq<char>, FileIndexView)>,
    query: Seq<char>,
    r: Seq<(Seq<char>, SymbolKind, Seq<char>, Range)>,
    keep: Seq<bool>,
) -> (src: Seq<(int, int)>)
    requires
        lists_symbols(symbol_items(s, idx, query), r, keep),
    ensures
        src.len() == r.len(),
        forall|j: int|
            0 <= j < r.len() ==> 0 <= (#[trigger] src[j]).0 < idx.len() && symbol_item_of(
                s,
                idx[src[j].0].0,
                idx[src[j].0].1.symbols,
                query,
                src[j].1,
                r[j],
            ),
        forall|i: int, j: int| 0 <= i < j < r.len() ==> lex_lt(src[i], src[j]),
{
    let items = symbol_items(s, idx, query);
    let pre = items.take(keep.len() as int);
    let pos = lemma_select_positions(pre, keep);
    let ks = lemma_item_sources(s, idx, query);
    let src = pos.map_values(|p: int| ks[p]);
    assert forall|j: int| 0 <= j < r.len() implies 0 <= (#[trigger] src[j]).0 < idx.len() && symbol_item_of(
        s,
        idx[src[j].0].0,
        idx[src[j].0].1.symbols,
        query,
        src[j].1,
        r[j],
    ) by {
        assert(pre[pos[j]] == items[pos[j]]);
        assert(src[j] == ks[pos[j]]);
    }
    assert forall|i: int, j: int| 0 <= i < j < r.len() implies lex_lt(src[i], src[j]) by {
        assert(pos[i] < pos[j]);
        assert(src[i] == ks[pos[i]] && src[j] == ks[pos[j]]);
    }
    src
}

proof fn lemma_lower_slash(c: char)
    ensures
        (ascii_lower(c) == '/') == (c == '/'),
{
}

proof fn lemma_segment_state_lower(p: Seq<char>)
    ensures
        segment_state(ascii_lower_seq(p)).0 == segment_state(p).0.map_values(|x: Seq<char>| ascii_lower_seq(x)),
        segment_state(ascii_lower_seq(p)).1 == ascii_lower_seq(segment_state(p).1),
    decreases p.len(),
{
    if p.len() > 0 {
        let q = p.drop_last();
        lemma_segment_state_lower(q);
        assert(ascii_lower_seq(p).drop_last() =~= ascii_lower_seq(q));
        assert(ascii_lower_seq(p).last() == ascii_lower(p.last()));
        lemma_lower_slash(p.last());
        let (done, cur) = segment_state(q);
        let f = |x: Seq<char>| ascii_lower_seq(x);
        assert(ascii_lower_seq(cur.push(p.last())) =~= ascii_lower_seq(cur).push(ascii_lower(p.last())));
        assert(done.push(cur).map_values(f) =~= done.map_values(f).push(ascii_lower_seq(cur)));
        assert(ascii_lower_seq(Seq::<char>::empty()) =~= Seq::<char>::empty());
    }
}

/// The segments of two paths that are equal ignoring ASCII case correspond one
/// to one, each pair equal ignoring ASCII case.
proof fn lemma_segments_ignore_case(a: Seq<char>, b: Seq<char>)
    requires
        eq_ignore_ascii_case(a, b),
    ensures
        segments(a).len() == segments(b).len(),
        forall|i: int| 0 <= i < segments(a).len() ==> eq_ignore_ascii_case(#[trigger] segments(a)[i], segments(b)[i]),
{
    lemma_segment_state_lower(a);
    lemma_segment_state_lower(b);
    let f = |x: Seq<char>| ascii_lower_seq(x);
    let (da, ca) = segment_state(a);
    let (db, cb) = segment_state(b);
    assert(da.map_values(f).len() == db.map_values(f).len());
    assert(ascii_lower_seq(ca).len() == ca.len());
    assert(ascii_lower_seq(cb).len() == cb.len());
    assert forall|i: int| 0 <= i < segments(a).len() implies eq_ignore_ascii_case(#[trigger] segments(a)[i], segments(b)[i]) by {
        if i < da.len() {
            assert(da.map_values(f)[i] == db.map_values(f)[i]);
        }
    }
}

/// `q` and `n` have as many components, each pair equal ignoring ASCII case.
pub open spec fn components_match_ignoring_case(q: Seq<char>, n: Seq<char>) -> bool {
    &&& segments(q).len() == segments(n).len()
    &&& forall|i: int|
        0 <= i < segments(q).len() ==> eq_ignore_ascii_case(#[trigger] segments(q)[i], segments(n)[i])
}

/// Resolution of an include path, component by component: the normalized
/// path itself when it is a known file; otherwise, resolution that falls back
/// to ignoring case reaches a file whose path matches the include, component
/// by component, ignoring ASCII case: as many
/// components, each equal to the include's ignoring ASCII case. The path
/// matched is a known file, or a known link whose target is the result. When
/// nothing is found, no known file or link in normal form matches the
/// include component by component.
pub proof fn law_resolution_per_component(
    paths: Seq<Seq<char>>,
    links: Seq<(Seq<char>, Seq<char>)>,
    candidate: Seq<char>,
)
    ensures
        paths.contains(normalize_spec(candidate)) ==> resolve_existing_spec(paths, links, candidate) == Some(
            normalize_spec(candidate),
        ),
        match resolve_existing_spec(paths, links, candidate) {
            Some(p) => exists|q: Seq<char>|
                {
                    &&& #[trigger] components_match_ignoring_case(q, normalize_spec(candidate))
                    &&& (paths.contains(q) && q == p) || links.contains((q, p))
                },
            None => forall|q: Seq<char>|
                q == normalize_spec(q) && is_absolute(q) == is_absolute(normalize_spec(candidate)) && (paths.contains(q)
                    || exists|t: Seq<char>| links.contains((q, t))) ==> !#[trigger] components_match_ignoring_case(
                    q,
                    normalize_spec(candidate),
                ),
        },
{
    let n = normalize_spec(candidate);
    law_resolution_yields_known_files(paths, links, candidate);
    crate::paths::law_normalize_idempotent(candidate);
    match resolve_existing_spec(paths, links, candidate) {
        Some(p) => {
            if paths.contains(p) && eq_ignore_ascii_case(p, n) {
                lemma_segments_ignore_case(p, n);
                assert(components_match_ignoring_case(p, n));
            } else {
                let k = choose|k: int|
                    0 <= k < links.len() && eq_ignore_ascii_case(links[k].0, n) && #[trigger] links[k].1 == p;
                lemma_segments_ignore_case(links[k].0, n);
                assert(links[k] == (links[k].0, p));
                assert(links.contains((links[k].0, p)));
                assert(components_match_ignoring_case(links[k].0, n));
            }
        },
        None => {
            assert forall|q: Seq<char>|
                q == normalize_spec(q) && is_absolute(q) == is_absolute(n) && (paths.contains(q) || exists|t: Seq<char>|
                    links.contains((q, t))) implies !#[trigger] components_match_ignoring_case(q, n) by {
                if components_match_ignoring_case(q, n) {
                    crate::paths::lemma_normal_paths_match(q, n);
                    if paths.contains(q) {
                        let i = choose|i: int| 0 <= i < paths.len() && paths[i] == q;
                        assert(eq_ignore_ascii_case(paths[i], n));
                    } else {
                        let t = choose|t: Seq<char>| links.contains((q, t));
                        let i = choose|i: int| 0 <= i < links.len() && links[i] == (q, t);
                        assert(eq_ignore_ascii_case(links[i].0, n));
                    }
                }
            }
        },
    }
}

/// The directory with the first `k` components of `c`, taking off the last
/// one: the `k`-th ancestor from the root of the path with components `c`.
pub open spec fn ancestor(absolute: bool, c: Seq<Seq<char>>, k: int) -> Seq<char> {
    render(absolute, c.take(k - 1))
}

proof fn lemma_nearest_marked(markers: Seq<Seq<char>>, absolute: bool, c: Seq<Seq<char>>, k: int)
    requires
        0 <= k <= c.len(),
    ensures
        match nearest_marked(markers, absolute, c, k) {
            Some(d) => exists|j: int|
                1 <= j <= k && markers.contains(#[trigger] ancestor(absolute, c, j)) && d == ancestor(absolute, c, j)
                    && forall|m: int| j < m <= k ==> !markers.contains(#[trigger] ancestor(absolute, c, m)),
            None => forall|m: int| 1 <= m <= k ==> !markers.contains(#[trigger] ancestor(absolute, c, m)),
        },
    decreases k,
{
    if k > 0 {
        lemma_nearest_marked(markers, absolute, c, k - 1);
        if markers.contains(ancestor(absolute, c, k)) {
            assert(forall|m: int| k < m <= k ==> !markers.contains(#[trigger] ancestor(absolute, c, m)));
        }
    }
}

/// The web root of a file is the nearest directory above it that holds a
/// `global.asa`: a marked ancestor with no marked ancestor between it and the
/// file, or the configured root when no ancestor is marked.
pub proof fn law_site_root_is_nearest(markers: Seq<Seq<char>>, file: Seq<char>, default: Seq<char>)
    ensures
        ({
            let c = components(file);
            let abs = is_absolute(file);
            let r = site_root_spec(markers, file, default);
            ||| exists|j: int|
                1 <= j <= c.len() && markers.contains(#[trigger] ancestor(abs, c, j)) && r == ancestor(abs, c, j)
                    && forall|m: int| j < m <= c.len() ==> !markers.contains(#[trigger] ancestor(abs, c, m))
            ||| r == default && forall|m: int| 1 <= m <= c.len() ==> !markers.contains(#[trigger] ancestor(abs, c, m))
        }),
{
    let c = components(file);
    lemma_nearest_marked(markers, is_absolute(file), c, c.len() as int);
}

proof fn lemma_file_includes_resolved(
    ls: Seq<Seq<char>>,
    path: Seq<char>,
    web_root: Seq<char>,
    files: (Seq<Seq<char>>, Seq<(Seq<char>, Seq<char>)>),
)
    ensures
        forall|i: int|
            0 <= i < file_includes(ls, path, web_root, files).len() ==> {
                let inc = #[trigger] file_includes(ls, path, web_root, files)[i];
                inc.resolved == resolve_include_spec(path, web_root, inc.kind, inc.raw_path, files)
            },
    decreases ls.len(),
{
    if ls.len() > 0 {
        lemma_file_includes_resolved(ls.drop_last(), path, web_root, files);
        let before = file_includes(ls.drop_last(), path, web_root, files);
        let here = line_includes(ls.last(), ls.len() - 1, path, web_root, files);
        let all = file_includes(ls, path, web_root, files);
        assert(all == before + here);
        assert forall|i: int| 0 <= i < all.len() implies ({
            let inc = #[trigger] all[i];
            inc.resolved == resolve_include_spec(path, web_root, inc.kind, inc.raw_path, files)
        }) by {
            if i < before.len() {
                assert(all[i] == before[i]);
            } else {
                assert(all[i] == here[i - before.len()]);
            }
        }
    }
}

/// Re-parsing a file gives it the index that its text gives, with every
/// include resolved against the file's own site root (see
/// `law_site_root_is_nearest`) and the files on disk.
pub proof fn law_reindex_uses_site_root(s: State, p: Seq<char>)
    requires
        s.text_spec(p) is Some,
    ensures
        ({
            let e = s.index_for(p, s.text_spec(p)->0);
            let root = s.disk_spec().site_root_of(p, s.web_root_view());
            &&& lookup(s.reindexed(p), p) == Some(e)
            &&& forall|i: int|
                0 <= i < e.includes.len() ==> (#[trigger] e.includes[i]).resolved == resolve_include_spec(
                    p,
                    root,
                    e.includes[i].kind,
                    e.includes[i].raw_path,
                    s.disk_spec().known(),
                )
        }),
{
    let t = s.text_spec(p)->0;
    lemma_lookup_upsert(s.index_spec(), p, s.index_for(p, t));
    lemma_file_includes_resolved(
        crate::text::lines(t),
        p,
        s.disk_spec().site_root_of(p, s.web_root_view()),
        s.disk_spec().known(),
    );
}

} // verus!
