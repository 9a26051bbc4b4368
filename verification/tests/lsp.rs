use asp_ls::files::Disk;
use asp_ls::location::symbol_location_at;
use asp_ls::lsp::{
    apply_document_event, definition, definition_answer, definition_plan, diagnostics, hover, locate_with,
    references, workspace_symbol, workspace_symbol_with, DefinitionPlan, DefinitionResponse, DocumentEvent,
    QueryError, DIAGNOSTIC_SOURCE, MAX_WORKSPACE_SYMBOLS,
};
use lsp_types::Url;
use asp_ls::parse::SymbolKind;
use asp_ls::position::{Position, Range};
use asp_ls::state::State;

fn s(x: &str) -> String {
    x.to_string()
}

fn pos(line: u32, character: u32) -> Position {
    Position { line, character }
}

fn range(line: u32, a: u32, b: u32) -> Range {
    Range { start: pos(line, a), end: pos(line, b) }
}

fn state_with(root: &str, files: &[(&str, &str)]) -> State {
    let disk = Disk::from_files(files.iter().map(|(p, t)| (p.to_string(), Some(t.to_string()))).collect());
    let mut state = State::new(root.to_string(), None, disk);
    let walked: Vec<(String, String)> = files.iter().map(|(p, _)| (p.to_string(), p.to_string())).collect();
    state.scan_workspace(&walked);
    state
}

fn site() -> State {
    state_with(
        "/w",
        &[
            ("/w/page.asp", "<!--#include file=\"lib.asp\"-->\n<% Call Helper() %>\n<!--#include file=\"gone.asp\"-->\nrs.MoveNext\nResponse.Write x"),
            ("/w/lib.asp", "<%\nSub Helper()\nEnd Sub\n%>"),
            ("/w/other.asp", "<!--#include virtual=\"/lib.asp\"-->"),
        ],
    )
}

#[test]
fn definition_on_an_include_goes_to_the_file() {
    let st = site();
    match definition(&st, &s("/w/page.asp"), pos(0, 20)) {
        Ok(DefinitionResponse::Scalar(loc)) => {
            assert_eq!(loc.path, "/w/lib.asp");
            assert_eq!(loc.uri.as_str(), "file:///w/lib.asp");
            assert_eq!(loc.range, Range::default());
        },
        _ => panic!("expected the included file"),
    }
    // An unresolved include has nowhere to go.
    assert!(matches!(definition(&st, &s("/w/page.asp"), pos(2, 20)), Ok(DefinitionResponse::Null)));
}

#[test]
fn link_capable_clients_get_the_quoted_path_as_origin() {
    let mut st = site();
    st.definition_link_support = true;
    match definition(&st, &s("/w/page.asp"), pos(0, 22)) {
        Ok(DefinitionResponse::Link { origin, target }) => {
            assert_eq!(origin, range(0, 19, 26));
            assert_eq!(target.path, "/w/lib.asp");
        },
        _ => panic!("expected a link"),
    }
    // With links, only the quoted path triggers: `<!--` does not.
    assert!(!matches!(definition(&st, &s("/w/page.asp"), pos(0, 1)), Ok(DefinitionResponse::Link { .. })));
}

#[test]
fn definition_on_a_name_lists_its_definitions() {
    let st = site();
    match definition(&st, &s("/w/page.asp"), pos(1, 10)) {
        Ok(DefinitionResponse::Array(locs)) => {
            assert_eq!(locs.len(), 1);
            assert_eq!(locs[0].path, "/w/lib.asp");
            assert_eq!(locs[0].range, range(1, 4, 10));
        },
        _ => panic!("expected definitions"),
    }
    // On the definition itself there is nothing else to go to.
    assert!(matches!(definition(&st, &s("/w/lib.asp"), pos(1, 5)), Ok(DefinitionResponse::Null)));
    // Off any word.
    assert!(matches!(definition(&st, &s("/w/page.asp"), pos(1, 2)), Ok(DefinitionResponse::Null)));
    // A file the server has no text for.
    assert!(matches!(definition(&st, &s("/w/none.asp"), pos(0, 0)), Ok(DefinitionResponse::Null)));
}

#[test]
fn an_include_target_without_a_url_is_an_error() {
    // Relative paths have no `file:` URL.
    let st = state_with("w", &[("w/a.asp", "<!--#include file=\"b.asp\"-->"), ("w/b.asp", "")]);
    assert!(matches!(definition(&st, &s("w/a.asp"), pos(0, 20)), Err(QueryError::BadPath)));
}

#[test]
fn references_list_the_includers() {
    let st = site();
    // Anywhere in lib.asp: who includes lib.asp.
    let refs = references(&st, &s("/w/lib.asp"), pos(1, 0)).unwrap();
    let got: Vec<_> = refs.iter().map(|l| (l.path.clone(), l.range)).collect();
    assert_eq!(got, vec![(s("/w/page.asp"), range(0, 0, 30)), (s("/w/other.asp"), range(0, 0, 34))]);
    // On an include directive: who includes its target.
    let same = references(&st, &s("/w/other.asp"), pos(0, 5)).unwrap();
    assert_eq!(same.len(), 2);
    // No text, no answer.
    assert!(references(&st, &s("/w/none.asp"), pos(0, 0)).is_none());
    // A line past the end, no answer.
    assert!(references(&st, &s("/w/lib.asp"), pos(9, 0)).is_none());
}

#[test]
fn hover_documents_builtins_and_user_definitions() {
    let st = site();
    assert_eq!(
        hover(&st, &s("/w/page.asp"), pos(3, 5)),
        Some(s("**`ADODB.Recordset.MoveNext`**\n\nMoves to the next record; check `EOF` afterwards."))
    );
    assert_eq!(
        hover(&st, &s("/w/page.asp"), pos(4, 10)),
        Some(s("**`Response.Write(value)`**\n\nWrites a string to the HTTP response body."))
    );
    assert_eq!(
        hover(&st, &s("/w/page.asp"), pos(4, 2)),
        Some(s("**`Response`**\n\nIntrinsic ASP object for the outgoing HTTP response. Common members: `Write`, `Redirect`, `End`, `Buffer`, `ContentType`, `Cookies`."))
    );
    assert_eq!(
        hover(&st, &s("/w/page.asp"), pos(1, 10)),
        Some(s("```vbscript\nSub Helper()\n```\n\n_defined in lib.asp_"))
    );
    assert_eq!(hover(&st, &s("/w/page.asp"), pos(4, 15)), None);
}

#[test]
fn workspace_symbols_match_the_query_ignoring_case() {
    let st = state_with(
        "/w",
        &[("/w/a.asp", "Sub DoThing\nFunction getThing()\nClass Thingy"), ("/w/b.asp", "Sub Other")],
    );
    let hits: Vec<_> = workspace_symbol(&st, "THING").iter().map(|m| (m.name.clone(), m.kind, m.location.range)).collect();
    assert_eq!(
        hits,
        vec![
            (s("DoThing"), SymbolKind::Sub, range(0, 4, 11)),
            (s("getThing"), SymbolKind::Function, range(1, 9, 17)),
            (s("Thingy"), SymbolKind::Class, range(2, 6, 12)),
        ]
    );
    assert_eq!(workspace_symbol(&st, "").len(), 4);
    assert!(workspace_symbol(&st, "zzz").is_empty());
}

#[test]
fn workspace_symbols_stop_at_the_limit() {
    let text: String = (0..MAX_WORKSPACE_SYMBOLS + 10).map(|i| format!("Sub S{i}\n")).collect();
    let st = state_with("/w", &[("/w/many.asp", text.as_str())]);
    let hits = workspace_symbol(&st, "s");
    assert_eq!(hits.len(), MAX_WORKSPACE_SYMBOLS);
    assert_eq!(hits[0].name, "S0");
}

#[test]
fn diagnostics_flag_unresolved_includes() {
    let st = site();
    let d = diagnostics(&st, &s("/w/page.asp"));
    assert_eq!(d.len(), 1);
    assert_eq!(d[0].range, range(2, 19, 27));
    assert_eq!(d[0].message, "Cannot resolve include \"gone.asp\"");
    assert_eq!(DIAGNOSTIC_SOURCE, "asp-ls");
    assert!(diagnostics(&st, &s("/w/lib.asp")).is_empty());
    assert!(diagnostics(&st, &s("/w/none.asp")).is_empty());
}

#[test]
fn document_events_update_buffers_and_index() {
    let mut st = site();
    assert!(apply_document_event(&mut st, DocumentEvent::Opened { path: s("/w/new.asp"), text: s("Sub Fresh") }));
    assert_eq!(st.text_of(&s("/w/new.asp")), Some(s("Sub Fresh")));
    assert_eq!(st.index_of(&s("/w/new.asp")).unwrap().symbols[0].name, "Fresh");
    assert!(apply_document_event(
        &mut st,
        DocumentEvent::Changed { path: s("/w/new.asp"), text: Some(s("Sub Fresher")) }
    ));
    assert_eq!(st.index_of(&s("/w/new.asp")).unwrap().symbols[0].name, "Fresher");
    // A change that carries no text changes nothing.
    assert!(!apply_document_event(&mut st, DocumentEvent::Changed { path: s("/w/new.asp"), text: None }));
    assert!(apply_document_event(&mut st, DocumentEvent::Saved { path: s("/w/new.asp") }));
    assert_eq!(st.index_of(&s("/w/new.asp")).unwrap().symbols[0].name, "Fresher");
    // Closing drops the buffer; the disk has no such file, so the old index stays.
    assert!(apply_document_event(&mut st, DocumentEvent::Closed { path: s("/w/new.asp") }));
    assert_eq!(st.text_of(&s("/w/new.asp")), None);
    // Closing a buffer of a file on disk reindexes from disk.
    apply_document_event(&mut st, DocumentEvent::Opened { path: s("/w/lib.asp"), text: s("Sub Edited") });
    apply_document_event(&mut st, DocumentEvent::Closed { path: s("/w/lib.asp") });
    assert_eq!(st.index_of(&s("/w/lib.asp")).unwrap().symbols[0].name, "Helper");
}

fn url(x: &str) -> Url {
    Url::parse(x).unwrap()
}

#[test]
fn locate_with_keeps_the_entries_that_have_urls() {
    let items = vec![(s("/a.asp"), range(1, 0, 2)), (s("/b.asp"), range(2, 1, 3)), (s("/c.asp"), range(3, 0, 1))];
    let uris = vec![Some(url("file:///x/a.asp")), None, Some(url("file:///x/c.asp"))];
    let locs = locate_with(&items, &uris);
    let got: Vec<_> = locs.iter().map(|l| (l.path.clone(), l.range, l.uri.as_str().to_string())).collect();
    assert_eq!(
        got,
        vec![
            (s("/a.asp"), range(1, 0, 2), s("file:///x/a.asp")),
            (s("/c.asp"), range(3, 0, 1), s("file:///x/c.asp")),
        ]
    );
}

#[test]
fn definition_answers_follow_the_urls_given() {
    let st = site();
    let plan = definition_plan(&st, &s("/w/page.asp"), pos(0, 20));
    assert!(matches!(definition_answer(plan, &vec![None]), Err(QueryError::BadPath)));
    let plan = definition_plan(&st, &s("/w/page.asp"), pos(0, 20));
    match definition_answer(plan, &vec![Some(url("file:///elsewhere/lib.asp"))]) {
        Ok(DefinitionResponse::Scalar(loc)) => {
            assert_eq!(loc.uri.as_str(), "file:///elsewhere/lib.asp");
            assert_eq!(loc.path, "/w/lib.asp");
        },
        _ => panic!("expected the included file"),
    }
    let plan = definition_plan(&st, &s("/w/page.asp"), pos(1, 10));
    assert!(matches!(plan, DefinitionPlan::Symbols(_)));
    assert!(matches!(definition_answer(plan, &vec![None]), Ok(DefinitionResponse::Null)));
    assert!(matches!(definition_answer(DefinitionPlan::Nothing, &vec![]), Ok(DefinitionResponse::Null)));
}

#[test]
fn workspace_symbols_skip_files_without_urls() {
    let st = state_with("/w", &[("/w/a.asp", "Sub One"), ("/w/b.asp", "Sub Two"), ("/w/c.asp", "Sub Three")]);
    let uris = vec![Some(url("file:///w/a.asp")), None, Some(url("file:///w/c.asp"))];
    let hits: Vec<_> = workspace_symbol_with(&st, "", &uris).iter().map(|m| (m.name.clone(), m.location.uri.to_string())).collect();
    assert_eq!(hits, vec![(s("One"), s("file:///w/a.asp")), (s("Three"), s("file:///w/c.asp"))]);
}

#[test]
fn symbol_locations_need_a_line_and_a_url() {
    let st = site();
    let index = st.index_of(&s("/w/lib.asp")).unwrap();
    let sym = &index.symbols[0];
    let text = "<%\nSub Helper()\nEnd Sub\n%>";
    let loc = symbol_location_at(&s("/w/lib.asp"), text, sym, Some(url("file:///w/lib.asp"))).unwrap();
    assert_eq!(loc.range, range(1, 4, 10));
    assert!(symbol_location_at(&s("/w/lib.asp"), text, sym, None).is_none());
    assert!(symbol_location_at(&s("/w/lib.asp"), "one line", sym, Some(url("file:///w/lib.asp"))).is_none());
    assert!(asp_ls::state::symbol_location(&s("relative/lib.asp"), text, sym).is_none());
    assert_eq!(
        asp_ls::state::symbol_location(&s("/w/lib.asp"), text, sym).unwrap().uri.as_str(),
        "file:///w/lib.asp"
    );
}

#[test]
fn definition_kinds_map_to_protocol_symbol_kinds() {
    assert_eq!(asp_ls::lsp::lsp_symbol_kind(asp_ls::parse::SymbolKind::Sub), 6);
    assert_eq!(asp_ls::lsp::lsp_symbol_kind(asp_ls::parse::SymbolKind::Function), 12);
    assert_eq!(asp_ls::lsp::lsp_symbol_kind(asp_ls::parse::SymbolKind::Class), 5);
    assert_eq!(asp_ls::lsp::lsp_symbol_kind(asp_ls::parse::SymbolKind::Property), 7);
}
