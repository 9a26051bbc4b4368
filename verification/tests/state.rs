use asp_ls::files::Disk;
use asp_ls::state::{indexed_extension, is_skipped_name, State, MAX_INDEXED_FILES};

fn state_with(files: &[(&str, &str)]) -> State {
    let disk = Disk::from_files(files.iter().map(|(p, t)| (p.to_string(), Some(t.to_string()))).collect());
    let mut state = State::new("/w".to_string(), None, disk);
    let walked: Vec<(String, String)> = files.iter().map(|(p, _)| (p.to_string(), p.to_string())).collect();
    state.scan_workspace(&walked);
    state
}

fn s(x: &str) -> String {
    x.to_string()
}

#[test]
fn new_state_places_the_web_root() {
    let a = State::new(s("/w"), None, Disk::new());
    assert_eq!(a.web_root, "/w");
    let b = State::new(s("/w"), Some(s("site/www")), Disk::new());
    assert_eq!(b.web_root, "/w/site/www");
    let c = State::new(s("/w"), Some(s("/srv/www")), Disk::new());
    assert_eq!(c.web_root, "/srv/www");
    assert_eq!(c.root, "/w");
    assert!(!c.definition_link_support);
    assert_eq!(c.index_len(), 0);
}

#[test]
fn canon_prefers_the_canonical_form() {
    assert_eq!(State::canon("/w/a/../b.asp", None), "/w/b.asp");
    assert_eq!(State::canon("/w/a/../b.asp", Some(s("/real/b.asp"))), "/real/b.asp");
}

#[test]
fn include_closure_is_breadth_first_from_the_start() {
    let st = state_with(&[
        ("/w/a.asp", "<!--#include file=\"b.asp\"-->\n<!--#include file=\"c.asp\"-->"),
        ("/w/b.asp", "<!--#include file=\"d.asp\"-->\n<!--#include file=\"a.asp\"-->"),
        ("/w/c.asp", "<!--#include file=\"d.asp\"-->"),
        ("/w/d.asp", "<!--#include file=\"missing.asp\"-->"),
        ("/w/e.asp", "<!--#include file=\"a.asp\"-->"),
    ]);
    assert_eq!(st.include_closure(&s("/w/a.asp")), vec![s("/w/a.asp"), s("/w/b.asp"), s("/w/c.asp"), s("/w/d.asp")]);
    assert_eq!(st.include_closure(&s("/w/d.asp")), vec![s("/w/d.asp")]);
    // A file that is not indexed is its own closure.
    assert_eq!(st.include_closure(&s("/w/zzz.asp")), vec![s("/w/zzz.asp")]);
}

#[test]
fn includers_of_lists_every_directive_that_resolves_to_the_target() {
    let st = state_with(&[
        ("/w/a.asp", "<!--#include file=\"lib.asp\"-->\nx\n<!--#include virtual=\"/lib.asp\"-->"),
        ("/w/b.asp", "<!--#include file=\"other.asp\"-->"),
        ("/w/lib.asp", ""),
        ("/w/other.asp", "<!--#include file=\"lib.asp\"-->"),
    ]);
    let found: Vec<_> = st.includers_of(&s("/w/lib.asp")).iter().map(|(f, inc)| (f.clone(), inc.line)).collect();
    assert_eq!(found, vec![(s("/w/a.asp"), 0), (s("/w/a.asp"), 2), (s("/w/other.asp"), 0)]);
    assert!(st.includers_of(&s("/w/a.asp")).is_empty());
}

#[test]
fn find_definitions_prefers_the_include_closure() {
    let st = state_with(&[
        ("/w/page.asp", "<!--#include file=\"lib.asp\"-->\nCall Helper()"),
        ("/w/lib.asp", "Sub HELPER()\nEnd Sub"),
        ("/w/elsewhere.asp", "Function helper()\nEnd Function"),
        ("/w/lonely.asp", "Call helper"),
    ]);
    let near: Vec<_> = st.find_definitions(&s("/w/page.asp"), "helper").iter().map(|(f, d)| (f.clone(), d.name.clone())).collect();
    assert_eq!(near, vec![(s("/w/lib.asp"), s("HELPER"))]);
    // Nothing in the closure: the whole index, in index order.
    let far: Vec<_> = st.find_definitions(&s("/w/lonely.asp"), "Helper").iter().map(|(f, d)| (f.clone(), d.name.clone())).collect();
    assert_eq!(far, vec![(s("/w/lib.asp"), s("HELPER")), (s("/w/elsewhere.asp"), s("helper"))]);
    assert!(st.find_definitions(&s("/w/page.asp"), "Nowhere").is_empty());
}

#[test]
fn overlays_shadow_the_disk_and_closing_restores_it() {
    let mut st = state_with(&[("/w/a.asp", "Sub OnDisk")]);
    assert_eq!(st.text_of(&s("/w/a.asp")), Some(s("Sub OnDisk")));
    st.set_overlay(s("/w/a.asp"), s("Sub InBuffer"));
    assert_eq!(st.text_of(&s("/w/a.asp")), Some(s("Sub InBuffer")));
    st.reindex(&s("/w/a.asp"));
    assert_eq!(st.index_of(&s("/w/a.asp")).unwrap().symbols[0].name, "InBuffer");
    st.remove_overlay(&s("/w/a.asp"));
    assert_eq!(st.text_of(&s("/w/a.asp")), Some(s("Sub OnDisk")));
    assert_eq!(st.text_of(&s("/w/none.asp")), None);
}

#[test]
fn reindex_dependents_refreshes_files_with_stale_includes() {
    let mut st = state_with(&[
        ("/w/a.asp", "<!--#include file=\"new.asp\"-->"),
        ("/w/b.asp", "<!--#include file=\"c.asp\"-->"),
        ("/w/c.asp", ""),
        ("/w/d.asp", "Sub D"),
    ]);
    assert!(st.index_of(&s("/w/a.asp")).unwrap().includes[0].resolved.is_none());
    // new.asp appears, c.asp goes away.
    st.set_disk_file(s("/w/new.asp"), Some(String::new()));
    st.forget_disk_file(&s("/w/c.asp"));
    let redone = st.reindex_dependents(&s("/w/new.asp"));
    assert_eq!(redone, vec![s("/w/a.asp"), s("/w/b.asp")]);
    assert_eq!(st.index_of(&s("/w/a.asp")).unwrap().includes[0].resolved, Some(s("/w/new.asp")));
    assert!(st.index_of(&s("/w/b.asp")).unwrap().includes[0].resolved.is_none());
    // The changed file itself is never in the list; b.asp is still unresolved.
    assert_eq!(st.reindex_dependents(&s("/w/b.asp")), Vec::<String>::new());
    assert_eq!(st.reindex_dependents(&s("/w/a.asp")), vec![s("/w/b.asp")]);
}

#[test]
fn scan_indexes_only_the_known_extensions() {
    let disk = Disk::from_files(vec![
        (s("/w/a.ASP"), Some(s("Sub A"))),
        (s("/w/b.inc"), Some(s("Sub B"))),
        (s("/w/c.txt"), Some(s("Sub C"))),
        (s("/w/.asp"), Some(s("Sub D"))),
        (s("/w/e.vbs"), Some(s("Sub E"))),
    ]);
    let walked: Vec<(String, String)> = ["/w/a.ASP", "/w/b.inc", "/w/c.txt", "/w/.asp", "/w/e.vbs"]
        .iter()
        .map(|p| (s(p), s(p)))
        .collect();
    let mut st = State::new(s("/w"), None, disk);
    assert!(!st.scan_workspace(&walked));
    assert_eq!(st.indexed_paths(), vec![s("/w/a.ASP"), s("/w/b.inc"), s("/w/e.vbs")]);
}

#[test]
fn scan_stops_at_the_file_limit() {
    let names: Vec<String> = (0..MAX_INDEXED_FILES + 3).map(|i| format!("/w/f{i}.asp")).collect();
    let disk = Disk::from_files(names.iter().take(3).map(|n| (n.clone(), Some(s("Sub X")))).collect());
    let walked: Vec<(String, String)> = names.iter().map(|n| (n.clone(), n.clone())).collect();
    let mut st = State::new(s("/w"), None, disk);
    assert!(st.scan_workspace(&walked));
    // Only files whose text is known get an index entry.
    assert_eq!(st.index_len(), 3);
}

#[test]
fn scan_skips_hidden_and_build_directories() {
    assert!(is_skipped_name(".git"));
    assert!(is_skipped_name("node_modules"));
    assert!(is_skipped_name("target"));
    assert!(!is_skipped_name("targets"));
    assert!(!is_skipped_name("site"));
    assert!(!is_skipped_name(""));
}

#[test]
fn indexed_extensions_ignore_case() {
    assert!(indexed_extension(&s("/w/Global.ASA")));
    assert!(indexed_extension(&s("x.Inc")));
    assert!(!indexed_extension(&s("/w/readme.md")));
    assert!(!indexed_extension(&s("/w/.asp")));
    assert!(!indexed_extension(&s("/w/asp")));
}
