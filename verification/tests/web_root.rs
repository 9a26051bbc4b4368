//! A workspace holding several site folders: each file must resolve
//! root-absolute includes against its own site root, not the workspace root.

use asp_ls::files::Disk;
use asp_ls::state::State;

fn workspace(files: &[(&str, &str)]) -> (State, Vec<(String, String)>) {
    let disk = Disk::from_files(files.iter().map(|(p, t)| (p.to_string(), Some(t.to_string()))).collect());
    let walked = files.iter().map(|(p, _)| (p.to_string(), p.to_string())).collect();
    (State::new("/ws".to_string(), None, disk), walked)
}

#[test]
fn root_absolute_includes_resolve_against_the_nearest_site_root() {
    // Capitalized on purpose: real codebases mix `global.asa` and `Global.asa`.
    let (mut state, walked) = workspace(&[
        ("/ws/site/Global.asa", ""),
        ("/ws/site/includes/CommFun.asp", "<% Sub Noop\nEnd Sub %>"),
        ("/ws/site/pages/index.asp", r#"<!--#include virtual="/includes/CommFun.asp"-->"#),
        // No marker anywhere above it: falls back to the workspace root.
        ("/ws/loose/includes/Other.asp", ""),
        ("/ws/loose/index.asp", r#"<!--#include virtual="/includes/Other.asp"-->"#),
    ]);
    state.scan_workspace(&walked);

    let page = State::canon("/ws/site/pages/index.asp", None);
    let resolved = state.index_of(&page).unwrap().includes[0].resolved.clone();
    assert_eq!(
        resolved,
        Some(State::canon("/ws/site/includes/CommFun.asp", None)),
        "virtual include should resolve under site/, not the workspace root"
    );

    let loose = State::canon("/ws/loose/index.asp", None);
    assert!(
        state.index_of(&loose).unwrap().includes[0].resolved.is_none(),
        "without a marker the web root stays the workspace root, so /includes/Other.asp misses"
    );
}

#[test]
fn the_nearest_of_nested_site_roots_wins() {
    let (mut state, walked) = workspace(&[
        ("/ws/global.asa", ""),
        ("/ws/inc/a.asp", ""),
        ("/ws/app/GLOBAL.ASA", ""),
        ("/ws/app/inc/a.asp", ""),
        ("/ws/app/deep/page.asp", r#"<!--#include virtual="/inc/a.asp"-->"#),
        ("/ws/other/page.asp", r#"<!--#include virtual="/inc/a.asp"-->"#),
    ]);
    state.scan_workspace(&walked);
    let deep = state.index_of(&"/ws/app/deep/page.asp".to_string()).unwrap().includes[0].resolved.clone();
    assert_eq!(deep, Some("/ws/app/inc/a.asp".to_string()));
    let other = state.index_of(&"/ws/other/page.asp".to_string()).unwrap().includes[0].resolved.clone();
    assert_eq!(other, Some("/ws/inc/a.asp".to_string()));
}

#[test]
fn a_configured_web_root_is_taken_relative_to_the_workspace() {
    let disk = Disk::from_files(vec![
        ("/ws/wwwroot/lib/db.asp".to_string(), Some(String::new())),
        ("/ws/wwwroot/p.asp".to_string(), Some(r#"<!--#include virtual="/lib/db.asp"-->"#.to_string())),
    ]);
    let mut state = State::new("/ws".to_string(), Some("wwwroot".to_string()), disk);
    state.reindex(&"/ws/wwwroot/p.asp".to_string());
    let r = state.index_of(&"/ws/wwwroot/p.asp".to_string()).unwrap().includes[0].resolved.clone();
    assert_eq!(r, Some("/ws/wwwroot/lib/db.asp".to_string()));
}
