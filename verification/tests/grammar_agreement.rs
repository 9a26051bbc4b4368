//! Lines assembled from fragments that the directive and definition patterns
//! care about, parsed both by the library and by the patterns themselves.

use asp_ls::files::Disk;
use asp_ls::parse::{parse_file, IncludeKind, SymbolKind};
use regex::Regex;

const FRAGMENTS: &[&str] = &[
    "<!--", "-->", "#include", "#INCLUDE", "#Include", "file", "FILE", "virtual", "Virtual", "=", "\"", "a.asp",
    "/inc/b.asp", "x", " ", "  ", "\t", "\u{3000}", "\u{a0}", "\u{85}", "\u{2028}", "<%", "<%=", "%>", "sub", "Sub",
    "SUB", "ſub", "function", "Function", "class", "Class", "claſs", "property", "Property", "get", "Let", "SET",
    "ſet", "public", "Private", "default", "_", "9", "é", "\u{200d}", "٣", "Foo", "bar_1", "(", ")", "'", "K", "\u{212a}",
];

struct Lcg(u64);

impl Lcg {
    fn next(&mut self) -> usize {
        self.0 = self.0.wrapping_mul(6364136223846793005).wrapping_add(1442695040888963407);
        (self.0 >> 33) as usize
    }
}

struct Patterns {
    include_re: Regex,
    sub_fn_re: Regex,
    class_re: Regex,
    property_re: Regex,
}

fn patterns() -> Patterns {
    Patterns {
        include_re: Regex::new(r#"(?i)<!--\s*#include\s+(file|virtual)\s*=\s*"([^"]*)"\s*-->"#).unwrap(),
        sub_fn_re: Regex::new(r"(?i)^\s*(?:<%=?\s*)?(?:(?:public|private|default)\s+)*(sub|function)\s+([a-zA-Z_]\w*)").unwrap(),
        class_re: Regex::new(r"(?i)^\s*(?:<%=?\s*)?class\s+([a-zA-Z_]\w*)").unwrap(),
        property_re: Regex::new(r"(?i)^\s*(?:<%=?\s*)?(?:(?:public|private|default)\s+)*property\s+(?:get|let|set)\s+([a-zA-Z_]\w*)").unwrap(),
    }
}

#[allow(clippy::type_complexity)]
fn by_patterns(pats: &Patterns, line: &str) -> (Vec<(bool, String, (usize, usize), (usize, usize))>, Option<(SymbolKind, String, (usize, usize))>) {
    let Patterns { include_re, sub_fn_re, class_re, property_re } = pats;
    let incs = include_re
        .captures_iter(line)
        .map(|c| {
            let w = c.get(0).unwrap();
            let p = c.get(2).unwrap();
            (c.get(1).unwrap().as_str().eq_ignore_ascii_case("file"), p.as_str().to_string(), (p.start(), p.end()), (w.start(), w.end()))
        })
        .collect();
    let sym = if let Some(c) = sub_fn_re.captures(line) {
        let kind = if c.get(1).unwrap().as_str().eq_ignore_ascii_case("sub") { SymbolKind::Sub } else { SymbolKind::Function };
        Some((kind, c.get(2).unwrap()))
    } else if let Some(c) = property_re.captures(line) {
        Some((SymbolKind::Property, c.get(1).unwrap()))
    } else if let Some(c) = class_re.captures(line) {
        Some((SymbolKind::Class, c.get(1).unwrap()))
    } else {
        None
    };
    (incs, sym.map(|(k, m)| (k, m.as_str().to_string(), (m.start(), m.end()))))
}

#[test]
fn generated_lines_parse_as_the_patterns_say() {
    let pats = patterns();
    let mut rng = Lcg(0x5eed);
    for _ in 0..4000 {
        let n = 1 + rng.next() % 12;
        let mut line = String::new();
        for _ in 0..n {
            line.push_str(FRAGMENTS[rng.next() % FRAGMENTS.len()]);
        }
        let index = parse_file(&line, "/w/a.asp", "/w", &Disk::new());
        let (incs, sym) = by_patterns(&pats, &line);
        let got_incs: Vec<_> = index
            .includes
            .iter()
            .map(|i| (i.kind == IncludeKind::File, i.raw_path.clone(), i.path_span, i.directive_span))
            .collect();
        assert_eq!(got_incs, incs, "includes of {line:?}");
        let got_sym = index.symbols.first().map(|s| (s.kind, s.name.clone(), s.name_span));
        assert_eq!(got_sym, sym, "definition on {line:?}");
        if let Some(s) = index.symbols.first() {
            assert_eq!(s.signature, line.trim(), "signature of {line:?}");
        }
    }
}

#[test]
fn structured_lines_parse_as_the_patterns_say() {
    let pats = patterns();
    let mut rng = Lcg(42);
    let ws = [" ", "\t", "  ", "\u{3000}", "\u{a0}"];
    let pre = ["", "<%", "<%=", "<% ", "<%= "];
    let mods = ["", "Public ", "private ", "DEFAULT ", "Public Default ", "publicx "];
    let kws = ["Sub", "ſub", "Function", "Class", "Property Get", "property  let", "Property Set", "Property Put"];
    let names = ["Foo", "_x", "a9", "9a", "é", "Café", "a\u{200d}b", "n٣", ""];
    for _ in 0..3000 {
        let line = format!(
            "{}{}{}{}{}{}(x)",
            ws[rng.next() % ws.len()],
            pre[rng.next() % pre.len()],
            mods[rng.next() % mods.len()],
            kws[rng.next() % kws.len()],
            ws[rng.next() % ws.len()],
            names[rng.next() % names.len()],
        );
        let index = parse_file(&line, "/w/a.asp", "/w", &Disk::new());
        let (_, sym) = by_patterns(&pats, &line);
        let got_sym = index.symbols.first().map(|s| (s.kind, s.name.clone(), s.name_span));
        assert_eq!(got_sym, sym, "definition on {line:?}");
        if let Some(s) = index.symbols.first() {
            assert_eq!(s.signature, line.trim(), "signature of {line:?}");
        }
    }
}
