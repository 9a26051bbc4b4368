use asp_ls::files::Disk;
use asp_ls::parse::{parse_file, resolve_include, FileIndex, IncludeKind, SymbolKind};
use regex::Regex;

fn disk(paths: &[&str]) -> Disk {
    Disk::from_files(paths.iter().map(|p| (p.to_string(), Some(String::new()))).collect())
}

/// What the directive and definition patterns find on each line, as
/// (line, kind-is-file, raw, path span, directive span) and
/// (line, kind, name, name span, signature).
#[allow(clippy::type_complexity)]
fn expected(text: &str) -> (Vec<(u32, bool, String, (usize, usize), (usize, usize))>, Vec<(u32, SymbolKind, String, (usize, usize), String)>) {
    let include_re = Regex::new(r#"(?i)<!--\s*#include\s+(file|virtual)\s*=\s*"([^"]*)"\s*-->"#).unwrap();
    let sub_fn_re = Regex::new(r"(?i)^\s*(?:<%=?\s*)?(?:(?:public|private|default)\s+)*(sub|function)\s+([a-zA-Z_]\w*)").unwrap();
    let class_re = Regex::new(r"(?i)^\s*(?:<%=?\s*)?class\s+([a-zA-Z_]\w*)").unwrap();
    let property_re = Regex::new(r"(?i)^\s*(?:<%=?\s*)?(?:(?:public|private|default)\s+)*property\s+(?:get|let|set)\s+([a-zA-Z_]\w*)").unwrap();
    let mut incs = Vec::new();
    let mut syms = Vec::new();
    for (k, line) in text.lines().enumerate() {
        let k = k as u32;
        for caps in include_re.captures_iter(line) {
            let whole = caps.get(0).unwrap();
            let kind = caps.get(1).unwrap();
            let path = caps.get(2).unwrap();
            incs.push((
                k,
                kind.as_str().eq_ignore_ascii_case("file"),
                path.as_str().to_string(),
                (path.start(), path.end()),
                (whole.start(), whole.end()),
            ));
        }
        let sym = if let Some(c) = sub_fn_re.captures(line) {
            let kind = if c.get(1).unwrap().as_str().eq_ignore_ascii_case("sub") {
                SymbolKind::Sub
            } else {
                SymbolKind::Function
            };
            Some((kind, c.get(2).unwrap()))
        } else if let Some(c) = property_re.captures(line) {
            Some((SymbolKind::Property, c.get(1).unwrap()))
        } else if let Some(c) = class_re.captures(line) {
            Some((SymbolKind::Class, c.get(1).unwrap()))
        } else {
            None
        };
        if let Some((kind, m)) = sym {
            syms.push((k, kind, m.as_str().to_string(), (m.start(), m.end()), line.trim().to_string()));
        }
    }
    (incs, syms)
}

fn check_against_patterns(text: &str) {
    let index = parse_file(text, "/w/a.asp", "/w", &Disk::new());
    let (incs, syms) = expected(text);
    let got_incs: Vec<_> = index
        .includes
        .iter()
        .map(|i| (i.line, i.kind == IncludeKind::File, i.raw_path.clone(), i.path_span, i.directive_span))
        .collect();
    let got_syms: Vec<_> = index
        .symbols
        .iter()
        .map(|s| (s.line, s.kind, s.name.clone(), s.name_span, s.signature.clone()))
        .collect();
    assert_eq!(got_incs, incs, "includes of {text:?}");
    assert_eq!(got_syms, syms, "symbols of {text:?}");
}

#[test]
fn parse_file_agrees_with_the_directive_and_definition_patterns() {
    let samples = [
        "<!--#include file=\"lib/db.asp\"-->",
        "<!-- #INCLUDE Virtual = \"/inc/a.asp\" -->  <!--#include file=\"b.inc\"-->",
        "<!--#include file=\"\"-->",
        "<!--#include file=x.asp-->",
        "<!--#include  file=\"a.asp\"  --><!--#include virtual=\"é/ü.asp\"-->",
        "<!--#includefile=\"a.asp\"-->",
        "Sub Foo()\nEnd Sub",
        "  public   Function bar_2(x)\n",
        "<% Sub Noop\nEnd Sub %>",
        "<%= Function F1",
        "Private Default Sub Init",
        "Public Property Get Name()",
        "property LET value(v)",
        "Class Widget\r\nEnd Class",
        "class 9bad",
        "Subroutine X",
        "Sub\tTabbed",
        "   \u{3000}Sub Wide",
        "Dim x ' Sub NotThis",
        "<%Sub Tight%>",
        "Function Überall",
        "Sub Ünicode_Next",
        "Public Sub _under",
        "ſub LongS",
        "Sub Café_1(x)",
        "Function n٣x",
        "Sub a\u{200d}b",
        "Default Property Set Item(k)",
        "<!--#include file=\"x.asp\"--> Sub AfterInclude",
        "line one\n\nSub Third\n<!--#include virtual=\"v.asp\"-->\n",
    ];
    for text in samples {
        check_against_patterns(text);
    }
}

#[test]
fn parse_file_records_definitions_with_spans_and_signature() {
    let text = "<%\n  Public Function GetUser(id)\nEnd Function\nClass Repo\n  Property Get Count\n%>";
    let index = parse_file(text, "/w/a.asp", "/w", &Disk::new());
    let names: Vec<_> = index.symbols.iter().map(|s| (s.name.as_str(), s.kind, s.line)).collect();
    assert_eq!(
        names,
        vec![("GetUser", SymbolKind::Function, 1), ("Repo", SymbolKind::Class, 3), ("Count", SymbolKind::Property, 4)]
    );
    assert_eq!(index.symbols[0].name_span, (18, 25));
    assert_eq!(index.symbols[0].signature, "Public Function GetUser(id)");
}

#[test]
fn includes_resolve_against_the_including_file_and_the_web_root() {
    let d = disk(&["/w/site/lib/db.asp", "/w/site/pages/util.asp", "/w/top.asp"]);
    let text = "<!--#include file=\"util.asp\"-->\n<!--#include virtual=\"/lib/db.asp\"-->\n<!--#include file=\"missing.asp\"-->";
    let index = parse_file(text, "/w/site/pages/index.asp", "/w/site", &d);
    let resolved: Vec<_> = index.includes.iter().map(|i| i.resolved.clone()).collect();
    assert_eq!(
        resolved,
        vec![Some("/w/site/pages/util.asp".to_string()), Some("/w/site/lib/db.asp".to_string()), None]
    );
    assert_eq!(index.includes[0].kind, IncludeKind::File);
    assert_eq!(index.includes[1].kind, IncludeKind::Virtual);
}

#[test]
fn resolve_include_cleans_the_raw_path() {
    let d = disk(&["/w/inc/a.asp", "/w/pages/b.asp"]);
    // Backslashes become slashes and surrounding blanks go.
    assert_eq!(
        resolve_include("/w/pages/x.asp", "/w", IncludeKind::File, "  ..\\inc\\a.asp ", &d),
        Some("/w/inc/a.asp".to_string())
    );
    // `virtual=` ignores leading slashes.
    assert_eq!(
        resolve_include("/w/pages/x.asp", "/w", IncludeKind::Virtual, "//inc/a.asp", &d),
        Some("/w/inc/a.asp".to_string())
    );
    assert_eq!(
        resolve_include("/w/pages/x.asp", "/w", IncludeKind::Virtual, "inc/a.asp", &d),
        Some("/w/inc/a.asp".to_string())
    );
    assert_eq!(resolve_include("/w/pages/x.asp", "/w", IncludeKind::File, "nope.asp", &d), None);
}

#[test]
fn root_absolute_file_includes_resolve_like_virtual_ones() {
    let d = disk(&["/w/inc/a.asp"]);
    let file = resolve_include("/w/pages/x.asp", "/w", IncludeKind::File, "/inc/a.asp", &d);
    let virt = resolve_include("/w/pages/x.asp", "/w", IncludeKind::Virtual, "/inc/a.asp", &d);
    assert_eq!(file, Some("/w/inc/a.asp".to_string()));
    assert_eq!(file, virt);
}

#[test]
fn resolution_falls_back_to_a_case_insensitive_match() {
    let d = disk(&["/w/Inc/CommFun.ASP", "/w/inc/other.asp"]);
    assert_eq!(
        resolve_include("/w/x.asp", "/w", IncludeKind::Virtual, "/inc/commfun.asp", &d),
        Some("/w/Inc/CommFun.ASP".to_string())
    );
    // An exact match wins over a case-insensitive one.
    let d2 = disk(&["/w/INC/a.asp", "/w/inc/a.asp"]);
    assert_eq!(
        resolve_include("/w/x.asp", "/w", IncludeKind::Virtual, "/inc/a.asp", &d2),
        Some("/w/inc/a.asp".to_string())
    );
}

#[test]
fn file_index_copies_keep_everything() {
    let index: FileIndex = parse_file("<!--#include file=\"a.asp\"-->\nSub A", "/w/b.asp", "/w", &Disk::new());
    let copy = index.copy();
    assert_eq!(copy.includes.len(), 1);
    assert_eq!(copy.includes[0].raw_path, "a.asp");
    assert_eq!(copy.symbols[0].name, "A");
}

#[test]
fn includes_through_a_symbolic_link_resolve_to_the_canonical_file() {
    let d = Disk::with_links(
        vec![("/w/real/lib.asp".to_string(), Some(String::new()))],
        vec![("/w/linked/lib.asp".to_string(), "/w/real/lib.asp".to_string())],
    );
    assert_eq!(
        resolve_include("/w/page.asp", "/w", IncludeKind::File, "linked/lib.asp", &d),
        Some("/w/real/lib.asp".to_string())
    );
    assert_eq!(
        resolve_include("/w/page.asp", "/w", IncludeKind::Virtual, "/LINKED/Lib.asp", &d),
        Some("/w/real/lib.asp".to_string())
    );
    assert_eq!(resolve_include("/w/page.asp", "/w", IncludeKind::File, "linked/other.asp", &d), None);
    // A link to a file that is gone no longer resolves.
    let mut gone = d;
    gone.forget(&"/w/real/lib.asp".to_string());
    assert_eq!(resolve_include("/w/page.asp", "/w", IncludeKind::File, "linked/lib.asp", &gone), None);
}

#[test]
fn the_site_root_is_the_nearest_directory_holding_a_global_asa() {
    let d = disk(&["/w/Global.asa", "/w/sub/global.asa", "/w/sub/x/a.asp", "/w/b.asp", "/other/c.asp"]);
    let root = "/d".to_string();
    assert_eq!(d.site_root(&"/w/sub/x/a.asp".to_string(), &root), "/w/sub");
    assert_eq!(d.site_root(&"/w/sub/global.asa".to_string(), &root), "/w/sub");
    assert_eq!(d.site_root(&"/w/b.asp".to_string(), &root), "/w");
    assert_eq!(d.site_root(&"/other/c.asp".to_string(), &root), "/d");
}

#[test]
fn case_insensitive_resolution_matches_component_by_component() {
    let d = disk(&["/w/Inc/Db.asp", "/w/inc_db.asp"]);
    assert_eq!(
        resolve_include("/w/page.asp", "/w", IncludeKind::Virtual, "/INC/db.ASP", &d),
        Some("/w/Inc/Db.asp".to_string())
    );
    assert_eq!(resolve_include("/w/page.asp", "/w", IncludeKind::Virtual, "/INC_DB/asp", &d), None);
}
