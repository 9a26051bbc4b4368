//! Lexical path handling compared with `std::path` on generated paths.

use std::path::{Component, Path, PathBuf};

use asp_ls::files::Disk;
use asp_ls::parse::{normalize, resolve_include, IncludeKind};
use asp_ls::state::indexed_extension;

fn lexical(path: &Path) -> PathBuf {
    let mut out = PathBuf::new();
    for comp in path.components() {
        match comp {
            Component::ParentDir => {
                out.pop();
            }
            Component::CurDir => {}
            other => out.push(other),
        }
    }
    out
}

const PIECES: &[&str] = &["/", "//", "a", "b.ASP", "..", ".", "c.inc", "x.", ".hidden", "d.vbs", "e.asa", "f.txt", "é"];

struct Lcg(u64);

impl Lcg {
    fn next(&mut self) -> usize {
        self.0 = self.0.wrapping_mul(6364136223846793005).wrapping_add(1442695040888963407);
        (self.0 >> 33) as usize
    }
}

#[test]
fn normalize_agrees_with_component_walk() {
    let mut rng = Lcg(99);
    for _ in 0..3000 {
        let n = rng.next() % 8;
        let mut p = String::new();
        for _ in 0..n {
            p.push_str(PIECES[rng.next() % PIECES.len()]);
            if rng.next() % 2 == 0 {
                p.push('/');
            }
        }
        let expected = lexical(Path::new(&p)).to_string_lossy().into_owned();
        assert_eq!(normalize(&p), expected, "{p:?}");
        let ext = Path::new(&p)
            .extension()
            .map(|e| e.to_string_lossy().to_ascii_lowercase())
            .is_some_and(|e| ["asp", "asa", "inc", "vbs"].contains(&e.as_str()));
        assert_eq!(indexed_extension(&p.to_string()), ext, "{p:?}");
    }
}

#[test]
fn include_candidates_agree_with_join_and_parent() {
    let raw_pieces: &[&str] = &["a", "..", ".", "\\", "/", "b.asp", " ", "c", "//"];
    let mut rng = Lcg(5);
    for _ in 0..2000 {
        let n = 1 + rng.next() % 6;
        let mut raw = String::new();
        for _ in 0..n {
            raw.push_str(raw_pieces[rng.next() % raw_pieces.len()]);
        }
        let cleaned = raw.trim().replace('\\', "/");
        let from = "/w/p/x.asp";
        let web = "/w/site";
        // `file=` relative to the including file's directory.
        if !cleaned.starts_with('/') {
            let cand = Path::new(from).parent().unwrap().join(&cleaned);
            let expected = lexical(&cand).to_string_lossy().into_owned();
            let disk = Disk::from_files(vec![(expected.clone(), None)]);
            assert_eq!(
                resolve_include(from, web, IncludeKind::File, &raw, &disk),
                Some(expected),
                "file={raw:?}"
            );
        }
        // `virtual=` relative to the web root.
        let cand = Path::new(web).join(cleaned.trim_start_matches('/'));
        let expected = lexical(&cand).to_string_lossy().into_owned();
        let disk = Disk::from_files(vec![(expected.clone(), None)]);
        assert_eq!(
            resolve_include(from, web, IncludeKind::Virtual, &raw, &disk),
            Some(expected),
            "virtual={raw:?}"
        );
    }
}

#[test]
fn prefix_stripping_agrees_with_std() {
    let pieces: &[&str] = &["/", "w", "x", ".", "..", "y.asp", "//"];
    let mut rng = Lcg(11);
    for _ in 0..3000 {
        let mut mk = |rng: &mut Lcg| {
            let n = rng.next() % 6;
            let mut p = String::new();
            for _ in 0..n {
                p.push_str(pieces[rng.next() % pieces.len()]);
            }
            p
        };
        // Paths in normal form, as the workspace root and indexed files are.
        let a = lexical(Path::new(&mk(&mut rng))).to_string_lossy().into_owned();
        let b = lexical(Path::new(&mk(&mut rng))).to_string_lossy().into_owned();
        if b.is_empty() {
            continue;
        }
        let expected = Path::new(&a).strip_prefix(Path::new(&b)).ok().map(|r| r.to_string_lossy().into_owned());
        let got = asp_ls::paths::strip_prefix_chars(&a.chars().collect(), &b.chars().collect())
            .map(|v| v.into_iter().collect::<String>());
        assert_eq!(got, expected, "{a:?} without {b:?}");
    }
}
