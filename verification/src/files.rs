//! The files the server knows to exist on disk, with the text last read from
//! each, and the lookups the index needs from them: case-insensitive path
//! resolution and the site root (nearest directory holding `global.asa`).

use vstd::prelude::*;
use crate::paths::{
    components, components_exec, is_absolute, normalize_chars, normalize_spec, parent_chars,
    parent_spec, render, render_segments, string_from_chars, views_of_segments,
};
use crate::text::{chars_eq_ignore_ascii_case, chars_of, eq_ignore_ascii_case};

verus! {

/// The value of the first entry whose key is `k`.
pub open spec fn lookup<V>(s: Seq<(Seq<char>, V)>, k: Seq<char>) -> Option<V>
    decreases s.len(),
{
    if s.len() == 0 {
        None
    } else if s[0].0 == k {
        Some(s[0].1)
    } else {
        lookup(s.drop_first(), k)
    }
}

/// `s` with the value of the first entry keyed `k` replaced by `v`, or with
/// `(k, v)` appended when there is none.
pub open spec fn upsert<V>(s: Seq<(Seq<char>, V)>, k: Seq<char>, v: V) -> Seq<(Seq<char>, V)>
    decreases s.len(),
{
    if s.len() == 0 {
        seq![(k, v)]
    } else if s[0].0 == k {
        seq![(k, v)] + s.drop_first()
    } else {
        seq![s[0]] + upsert(s.drop_first(), k, v)
    }
}

/// After `upsert`, looking `k` up gives the new value.
pub proof fn lemma_lookup_upsert<V>(s: Seq<(Seq<char>, V)>, k: Seq<char>, v: V)
    ensures
        lookup(upsert(s, k, v), k) == Some(v),
    decreases s.len(),
{
    if s.len() > 0 && s[0].0 != k {
        lemma_lookup_upsert(s.drop_first(), k, v);
        assert((seq![s[0]] + upsert(s.drop_first(), k, v)).drop_first() =~= upsert(s.drop_first(), k, v));
    }
}

pub open spec fn first_key(s: Seq<Seq<char>>, k: Seq<char>, i: int) -> bool {
    &&& 0 <= i < s.len()
    &&& s[i] == k
    &&& forall|j: int| 0 <= j < i ==> s[j] != k
}

pub open spec fn keys_of<V>(s: Seq<(Seq<char>, V)>) -> Seq<Seq<char>> {
    s.map_values(|e: (Seq<char>, V)| e.0)
}

pub proof fn lemma_lookup_first<V>(s: Seq<(Seq<char>, V)>, k: Seq<char>, i: int)
    requires
        first_key(keys_of(s), k, i),
    ensures
        lookup(s, k) == Some(s[i].1),
    decreases i,
{
    if i > 0 {
        assert(keys_of(s)[0] != k);
        assert forall|j: int| 0 <= j < i - 1 implies keys_of(s.drop_first())[j] != k by {
            assert(keys_of(s)[j + 1] != k);
        }
        assert(keys_of(s.drop_first())[i - 1] == keys_of(s)[i]);
        lemma_lookup_first(s.drop_first(), k, i - 1);
    } else {
        assert(keys_of(s)[0] == s[0].0);
    }
}

pub proof fn lemma_lookup_none<V>(s: Seq<(Seq<char>, V)>, k: Seq<char>)
    requires
        !keys_of(s).contains(k),
    ensures
        lookup(s, k) is None,
    decreases s.len(),
{
    if s.len() > 0 {
        assert(keys_of(s)[0] == s[0].0);
        assert forall|j: int| 0 <= j < s.len() - 1 implies keys_of(s.drop_first())[j] != k by {
            assert(keys_of(s)[j + 1] == keys_of(s.drop_first())[j]);
        }
        lemma_lookup_none(s.drop_first(), k);
    }
}

pub proof fn lemma_upsert_first<V>(s: Seq<(Seq<char>, V)>, k: Seq<char>, v: V, i: int)
    requires
        first_key(keys_of(s), k, i),
    ensures
        upsert(s, k, v) == s.update(i, (k, v)),
    decreases i,
{
    if i > 0 {
        assert(keys_of(s)[0] != k);
        assert forall|j: int| 0 <= j < i - 1 implies keys_of(s.drop_first())[j] != k by {
            assert(keys_of(s)[j + 1] != k);
        }
        assert(keys_of(s.drop_first())[i - 1] == keys_of(s)[i]);
        lemma_upsert_first(s.drop_first(), k, v, i - 1);
        assert(seq![s[0]] + s.drop_first().update(i - 1, (k, v)) =~= s.update(i, (k, v)));
    } else {
        assert(keys_of(s)[0] == s[0].0);
        assert(seq![(k, v)] + s.drop_first() =~= s.update(0, (k, v)));
    }
}

pub proof fn lemma_upsert_none<V>(s: Seq<(Seq<char>, V)>, k: Seq<char>, v: V)
    requires
        !keys_of(s).contains(k),
    ensures
        upsert(s, k, v) == s.push((k, v)),
    decreases s.len(),
{
    if s.len() > 0 {
        assert(keys_of(s)[0] == s[0].0);
        assert forall|j: int| 0 <= j < s.len() - 1 implies keys_of(s.drop_first())[j] != k by {
            assert(keys_of(s)[j + 1] == keys_of(s.drop_first())[j]);
        }
        lemma_upsert_none(s.drop_first(), k, v);
        assert(seq![s[0]] + s.drop_first().push((k, v)) =~= s.push((k, v)));
    } else {
        assert(seq![(k, v)] =~= s.push((k, v)));
    }
}

/// `upsert` keeps keys unique.
pub proof fn lemma_upsert_unique<V>(s: Seq<(Seq<char>, V)>, k: Seq<char>, v: V)
    requires
        keys_of(s).no_duplicates(),
    ensures
        keys_of(upsert(s, k, v)).no_duplicates(),
        keys_of(upsert(s, k, v)).contains(k),
{
    if keys_of(s).contains(k) {
        let i = choose|i: int| 0 <= i < keys_of(s).len() && keys_of(s)[i] == k;
        assert(first_key(keys_of(s), k, i));
        lemma_upsert_first(s, k, v, i);
        assert(keys_of(upsert(s, k, v)) =~= keys_of(s));
    } else {
        lemma_upsert_none(s, k, v);
        let t = upsert(s, k, v);
        assert(keys_of(t) =~= keys_of(s).push(k));
        assert(keys_of(t)[keys_of(s).len() as int] == k);
    }
}

/// Keeping some entries keeps keys unique.
pub proof fn lemma_filter_unique<V>(s: Seq<(Seq<char>, V)>, pred: spec_fn((Seq<char>, V)) -> bool)
    requires
        keys_of(s).no_duplicates(),
    ensures
        keys_of(s.filter(pred)).no_duplicates(),
    decreases s.len(),
{
    reveal(Seq::filter);
    if s.len() > 0 {
        let d = s.drop_last();
        assert(keys_of(d) =~= keys_of(s).drop_last());
        lemma_filter_unique(d, pred);
        let sub = d.filter(pred);
        if pred(s.last()) {
            d.filter_lemma(pred);
            assert(s.filter(pred) == sub.push(s.last()));
            let f = s.filter(pred);
            assert forall|a: int, b: int| 0 <= a < b < keys_of(f).len() implies keys_of(f)[a] != keys_of(f)[b] by {
                if b == sub.len() {
                    assert(d.contains(sub[a])) by {
                        d.lemma_filter_contains_rev(pred, sub[a]);
                    }
                    let m = choose|m: int| 0 <= m < d.len() && d[m] == sub[a];
                    assert(keys_of(s)[m] == sub[a].0);
                    assert(keys_of(s)[s.len() - 1] == s.last().0);
                } else {
                    assert(keys_of(f)[a] == keys_of(sub)[a]);
                    assert(keys_of(f)[b] == keys_of(sub)[b]);
                }
            }
        } else {
            assert(s.filter(pred) == sub);
        }
    }
}

/// `upsert` leaves the value of every other key as it was.
pub proof fn lemma_lookup_upsert_other<V>(s: Seq<(Seq<char>, V)>, k: Seq<char>, v: V, f: Seq<char>)
    requires
        f != k,
    ensures
        lookup(upsert(s, k, v), f) == lookup(s, f),
    decreases s.len(),
{
    let t = upsert(s, k, v);
    if s.len() > 0 {
        if s[0].0 == k {
            assert(t == seq![(k, v)] + s.drop_first());
            assert(t[0] == (k, v));
            assert(t.drop_first() =~= s.drop_first());
            assert(lookup(t, f) == lookup(t.drop_first(), f));
        } else {
            lemma_lookup_upsert_other(s.drop_first(), k, v, f);
            assert(t == seq![s[0]] + upsert(s.drop_first(), k, v));
            assert(t[0] == s[0]);
            assert(t.drop_first() =~= upsert(s.drop_first(), k, v));
            if s[0].0 != f {
                assert(lookup(t, f) == lookup(t.drop_first(), f));
            }
        }
    } else {
        assert(t == seq![(k, v)]);
        assert(t[0] == (k, v));
        assert(t.drop_first() =~= Seq::<(Seq<char>, V)>::empty());
        assert(lookup(t, f) == lookup(t.drop_first(), f));
    }
}

/// `upsert` of a key already present keeps the keys as they were.
pub proof fn lemma_upsert_same_keys<V>(s: Seq<(Seq<char>, V)>, k: Seq<char>, v: V)
    requires
        keys_of(s).contains(k),
    ensures
        keys_of(upsert(s, k, v)) == keys_of(s),
{
    let i = choose|i: int| 0 <= i < keys_of(s).len() && keys_of(s)[i] == k && forall|j: int| 0 <= j < i ==> keys_of(s)[j] != k;
    assert(first_key(keys_of(s), k, i)) by {
        let w = choose|w: int| 0 <= w < keys_of(s).len() && keys_of(s)[w] == k;
        lemma_first_occurrence(keys_of(s), k, w);
    }
    lemma_upsert_first(s, k, v, i);
    assert(keys_of(upsert(s, k, v)) =~= keys_of(s));
}

proof fn lemma_first_occurrence(s: Seq<Seq<char>>, k: Seq<char>, w: int)
    requires
        0 <= w < s.len(),
        s[w] == k,
    ensures
        exists|i: int| 0 <= i < s.len() && s[i] == k && forall|j: int| 0 <= j < i ==> s[j] != k,
    decreases w,
{
    if exists|j: int| 0 <= j < w && s[j] == k {
        let j = choose|j: int| 0 <= j < w && s[j] == k;
        lemma_first_occurrence(s, k, j);
    } else {
        assert(forall|j: int| 0 <= j < w ==> s[j] != k);
    }
}

/// Appending an entry keyed by a new key: the earlier keys look up as before,
/// the new one gives the new value.
pub proof fn lemma_lookup_push<V>(s: Seq<(Seq<char>, V)>, e: (Seq<char>, V), f: Seq<char>)
    ensures
        keys_of(s).contains(f) ==> lookup(s.push(e), f) == lookup(s, f),
        !keys_of(s).contains(f) && f == e.0 ==> lookup(s.push(e), f) == Some(e.1),
        !keys_of(s).contains(f) && f != e.0 ==> lookup(s.push(e), f) is None,
    decreases s.len(),
{
    let t = s.push(e);
    if s.len() > 0 {
        let d = s.drop_first();
        assert(t[0] == s[0]);
        assert(t.drop_first() =~= d.push(e));
        assert(keys_of(s)[0] == s[0].0);
        assert forall|j: int| 0 <= j < keys_of(d).len() implies keys_of(s)[j + 1] == keys_of(d)[j] by {}
        if s[0].0 != f {
            if keys_of(s).contains(f) {
                let j = choose|j: int| 0 <= j < keys_of(s).len() && keys_of(s)[j] == f;
                assert(keys_of(d)[j - 1] == f);
            }
            if keys_of(d).contains(f) {
                let j = choose|j: int| 0 <= j < keys_of(d).len() && keys_of(d)[j] == f;
                assert(keys_of(s)[j + 1] == f);
            }
            lemma_lookup_push(d, e, f);
            assert(lookup(t, f) == lookup(t.drop_first(), f));
            assert(lookup(s, f) == lookup(d, f));
        }
    } else {
        assert(t =~= seq![e]);
        assert(t[0] == e);
        assert(t.drop_first() =~= Seq::<(Seq<char>, V)>::empty());
        if f != e.0 {
            assert(lookup(t, f) == lookup(t.drop_first(), f));
        }
    }
}

/// Index of the first entry keyed `k`.
pub fn find_key<V>(s: &Vec<(String, V)>, k: &String) -> (r: Option<usize>)
    ensures
        r matches Some(i) ==> i < s@.len() && s@[i as int].0@ == k@ && forall|j: int|
            0 <= j < i ==> (#[trigger] s@[j]).0@ != k@,
        r is None ==> forall|j: int| 0 <= j < s@.len() ==> (#[trigger] s@[j]).0@ != k@,
{
    let mut i: usize = 0;
    while i < s.len()
        invariant
            i <= s@.len(),
            forall|j: int| 0 <= j < i ==> (#[trigger] s@[j]).0@ != k@,
        decreases s@.len() - i,
    {
        if s[i].0 == *k {
            return Some(i);
        }
        i += 1;
    }
    None
}

/// The name of the file that marks the root of a site.
pub open spec fn marker_name() -> Seq<char> {
    seq!['g', 'l', 'o', 'b', 'a', 'l', '.', 'a', 's', 'a']
}

/// `p` names a site marker: its last component is `global.asa`, in any case.
pub open spec fn is_marker(p: Seq<char>) -> bool {
    components(p).len() > 0 && eq_ignore_ascii_case(components(p).last(), marker_name())
}

/// The directories that hold a site marker, in the order of the files.
pub open spec fn marker_dirs(paths: Seq<Seq<char>>) -> Seq<Seq<char>>
    decreases paths.len(),
{
    if paths.len() == 0 {
        Seq::empty()
    } else if is_marker(paths.last()) {
        marker_dirs(paths.drop_last()).push(parent_spec(paths.last()).unwrap())
    } else {
        marker_dirs(paths.drop_last())
    }
}

/// The nearest of the first `k` ancestors of the path with components `comps`
/// (longest first) that is a marked directory.
pub open spec fn nearest_marked(
    markers: Seq<Seq<char>>,
    absolute: bool,
    comps: Seq<Seq<char>>,
    k: int,
) -> Option<Seq<char>>
    decreases k,
{
    if k <= 0 || k > comps.len() {
        None
    } else if markers.contains(render(absolute, comps.take(k - 1))) {
        Some(render(absolute, comps.take(k - 1)))
    } else {
        nearest_marked(markers, absolute, comps, k - 1)
    }
}

/// The web root for `file`: the nearest directory above it that holds a
/// `global.asa`, or `default` when there is none.
pub open spec fn site_root_spec(markers: Seq<Seq<char>>, file: Seq<char>, default: Seq<char>) -> Seq<char> {
    let c = components(file);
    match nearest_marked(markers, is_absolute(file), c, c.len() as int) {
        Some(d) => d,
        None => default,
    }
}

/// The first known file whose path equals `n` ignoring ASCII case.
pub open spec fn first_case_insensitive(paths: Seq<Seq<char>>, n: Seq<char>) -> Option<Seq<char>>
    decreases paths.len(),
{
    if paths.len() == 0 {
        None
    } else if eq_ignore_ascii_case(paths[0], n) {
        Some(paths[0])
    } else {
        first_case_insensitive(paths.drop_first(), n)
    }
}

/// The canonical path of the first link whose path equals `n` ignoring ASCII case.
pub open spec fn first_link_case_insensitive(links: Seq<(Seq<char>, Seq<char>)>, n: Seq<char>) -> Option<Seq<char>>
    decreases links.len(),
{
    if links.len() == 0 {
        None
    } else if eq_ignore_ascii_case(links[0].0, n) {
        Some(links[0].1)
    } else {
        first_link_case_insensitive(links.drop_first(), n)
    }
}

/// The existing file that `candidate` names, as its canonical path. `paths`
/// are the canonical paths of the known files; `links` pairs each other path
/// that reaches a known file (through a symbolic link) with that file's
/// canonical path. The normalized candidate is looked up exactly, first among
/// the files, then among the links; failing that, ignoring ASCII case, in the
/// same order (sources written on Windows often mismatch case). Matching the
/// whole path ignoring ASCII case matches it component by component: see
/// `law_resolution_per_component`.
pub open spec fn resolve_existing_spec(
    paths: Seq<Seq<char>>,
    links: Seq<(Seq<char>, Seq<char>)>,
    candidate: Seq<char>,
) -> Option<Seq<char>> {
    let n = normalize_spec(candidate);
    if paths.contains(n) {
        Some(n)
    } else if lookup(links, n) is Some {
        lookup(links, n)
    } else if first_case_insensitive(paths, n) is Some {
        first_case_insensitive(paths, n)
    } else {
        first_link_case_insensitive(links, n)
    }
}

/// The files known to exist, each with the text last read from it (none
/// when it has not been read).
pub struct Disk {
    files: Vec<(String, Option<String>)>,
    markers: Vec<Vec<char>>,
    links: Vec<(String, String)>,
}

pub open spec fn links_view(v: Seq<(String, String)>) -> Seq<(Seq<char>, Seq<char>)> {
    v.map_values(|e: (String, String)| (e.0@, e.1@))
}

pub open spec fn opt_view(o: Option<String>) -> Option<Seq<char>> {
    match o {
        Some(s) => Some(s@),
        None => None,
    }
}

pub open spec fn disk_entries_view(v: Seq<(String, Option<String>)>) -> Seq<(Seq<char>, Option<Seq<char>>)> {
    v.map_values(|e: (String, Option<String>)| (e.0@, opt_view(e.1)))
}

impl Disk {
    /// The known files, in order, with their texts.
    pub closed spec fn entries(&self) -> Seq<(Seq<char>, Option<Seq<char>>)> {
        disk_entries_view(self.files@)
    }

    pub open spec fn paths(&self) -> Seq<Seq<char>> {
        keys_of(self.entries())
    }

    /// The other paths that reach known files, each with the file's canonical path.
    pub closed spec fn links(&self) -> Seq<(Seq<char>, Seq<char>)> {
        links_view(self.links@)
    }

    /// What includes resolve against: the known files and the links to them.
    pub open spec fn known(&self) -> (Seq<Seq<char>>, Seq<(Seq<char>, Seq<char>)>) {
        (self.paths(), self.links())
    }

    pub closed spec fn wf(&self) -> bool {
        views_of_segments(self.markers@) == marker_dirs(self.paths())
    }

    pub open spec fn markers(&self) -> Seq<Seq<char>> {
        marker_dirs(self.paths())
    }

    /// The text of the first known file with path `p`.
    pub open spec fn text_spec(&self, p: Seq<char>) -> Option<Seq<char>> {
        match lookup(self.entries(), p) {
            Some(t) => t,
            None => None,
        }
    }

    pub open spec fn site_root_of(&self, file: Seq<char>, default: Seq<char>) -> Seq<char> {
        site_root_spec(self.markers(), file, default)
    }

    pub open spec fn resolve_spec(&self, candidate: Seq<char>) -> Option<Seq<char>> {
        resolve_existing_spec(self.paths(), self.links(), candidate)
    }

    /// No file is known.
    pub fn new() -> (r: Disk)
        ensures
            r.wf(),
            r.entries() == Seq::<(Seq<char>, Option<Seq<char>>)>::empty(),
            r.links() == Seq::<(Seq<char>, Seq<char>)>::empty(),
    {
        let r = Disk { files: Vec::new(), markers: Vec::new(), links: Vec::new() };
        proof {
            assert(r.links() =~= Seq::<(Seq<char>, Seq<char>)>::empty());
        }
        proof {
            assert(r.entries() =~= Seq::<(Seq<char>, Option<Seq<char>>)>::empty());
            assert(r.paths() =~= Seq::<Seq<char>>::empty());
            assert(views_of_segments(r.markers@) =~= Seq::<Seq<char>>::empty());
        }
        r
    }

    /// The given files, in the given order.
    pub fn from_files(files: Vec<(String, Option<String>)>) -> (r: Disk)
        ensures
            r.wf(),
            r.entries() == disk_entries_view(files@),
            r.links() == Seq::<(Seq<char>, Seq<char>)>::empty(),
    {
        let markers = compute_markers(&files);
        let r = Disk { files, markers, links: Vec::new() };
        proof {
            assert(r.links() =~= Seq::<(Seq<char>, Seq<char>)>::empty());
        }
        r
    }

    /// The given files, in the given order, and the given links to them: each
    /// a path that reaches a file through a symbolic link, with the file's
    /// canonical path.
    pub fn with_links(files: Vec<(String, Option<String>)>, links: Vec<(String, String)>) -> (r: Disk)
        ensures
            r.wf(),
            r.entries() == disk_entries_view(files@),
            r.links() == links_view(links@),
    {
        let markers = compute_markers(&files);
        Disk { files, markers, links }
    }

    /// Number of known files.
    pub fn len(&self) -> (r: usize)
        ensures
            r == self.entries().len(),
    {
        self.files.len()
    }

    /// Whether a file with path `p` is known.
    pub fn has_file(&self, p: &String) -> (r: bool)
        ensures
            r == self.paths().contains(p@),
    {
        match find_key(&self.files, p) {
            Some(i) => {
                proof {
                    assert(self.paths()[i as int] == p@);
                }
                true
            },
            None => {
                proof {
                    if self.paths().contains(p@) {
                        let j = choose|j: int| 0 <= j < self.paths().len() && self.paths()[j] == p@;
                        assert(self.files@[j].0@ == p@);
                    }
                }
                false
            },
        }
    }

    /// The text last read from `p`, if `p` is known and was read.
    pub fn text(&self, p: &String) -> (r: Option<String>)
        ensures
            opt_view(r) == self.text_spec(p@),
    {
        match find_key(&self.files, p) {
            Some(i) => {
                proof {
                    assert(first_key(keys_of(self.entries()), p@, i as int));
                    lemma_lookup_first(self.entries(), p@, i as int);
                }
                match &self.files[i].1 {
                    Some(t) => Some(t.clone()),
                    None => None,
                }
            },
            None => {
                proof {
                    lemma_lookup_none(self.entries(), p@);
                }
                None
            },
        }
    }

    /// Records that `p` exists, with the text just read from it.
    pub fn set_file(&mut self, p: String, text: Option<String>)
        requires
            old(self).wf(),
        ensures
            final(self).wf(),
            final(self).entries() == upsert(old(self).entries(), p@, opt_view(text)),
            final(self).links() == old(self).links(),
    {
        let ghost pv = p@;
        let ghost tv = opt_view(text);
        let ghost old_entries = self.entries();
        match find_key(&self.files, &p) {
            Some(i) => {
                self.files.set(i, (p, text));
                proof {
                    assert(first_key(keys_of(old_entries), pv, i as int));
                    lemma_upsert_first(old_entries, pv, tv, i as int);
                    assert(self.entries() =~= old_entries.update(i as int, (pv, tv)));
                }
            },
            None => {
                self.files.push((p, text));
                proof {
                    lemma_upsert_none(old_entries, pv, tv);
                    assert(self.entries() =~= old_entries.push((pv, tv)));
                }
            },
        }
        self.markers = compute_markers(&self.files);
    }

    /// Forgets every entry for `p` (the file no longer exists).
    pub fn forget(&mut self, p: &String)
        requires
            old(self).wf(),
        ensures
            final(self).wf(),
            final(self).entries() == old(self).entries().filter(|e: (Seq<char>, Option<Seq<char>>)| e.0 != p@),
            final(self).links() == old(self).links().filter(|e: (Seq<char>, Seq<char>)| e.1 != p@),
    {
        let ghost pred = |e: (Seq<char>, Option<Seq<char>>)| e.0 != p@;
        let mut kept: Vec<(String, Option<String>)> = Vec::new();
        let mut i: usize = 0;
        while i < self.files.len()
            invariant
                i <= self.files@.len(),
                pred == (|e: (Seq<char>, Option<Seq<char>>)| e.0 != p@),
                disk_entries_view(kept@) == disk_entries_view(self.files@).take(i as int).filter(pred),
            decreases self.files@.len() - i,
        {
            let ghost all = disk_entries_view(self.files@);
            proof {
                assert(all.take(i + 1) =~= all.take(i as int).push(all[i as int]));
                all.take(i as int).lemma_filter_push(all[i as int], pred);
            }
            if self.files[i].0 != *p {
                let e = (self.files[i].0.clone(), self.files[i].1.clone());
                let ghost old_kept = kept@;
                kept.push(e);
                proof {
                    assert(disk_entries_view(kept@) =~= disk_entries_view(old_kept).push(all[i as int]));
                }
            }
            i += 1;
        }
        proof {
            assert(disk_entries_view(self.files@).take(self.files@.len() as int) =~= disk_entries_view(self.files@));
        }
        self.files = kept;
        self.markers = compute_markers(&self.files);
        let ghost lpred = |e: (Seq<char>, Seq<char>)| e.1 != p@;
        let ghost all_links = self.links();
        let mut kept_links: Vec<(String, String)> = Vec::new();
        let mut i: usize = 0;
        while i < self.links.len()
            invariant
                i <= self.links@.len(),
                all_links == links_view(self.links@),
                lpred == (|e: (Seq<char>, Seq<char>)| e.1 != p@),
                links_view(kept_links@) == all_links.take(i as int).filter(lpred),
            decreases self.links@.len() - i,
        {
            proof {
                assert(all_links.take(i + 1) =~= all_links.take(i as int).push(all_links[i as int]));
                all_links.take(i as int).lemma_filter_push(all_links[i as int], lpred);
            }
            if self.links[i].1 != *p {
                let e = (self.links[i].0.clone(), self.links[i].1.clone());
                let ghost old_kept = kept_links@;
                kept_links.push(e);
                proof {
                    assert(links_view(kept_links@) =~= links_view(old_kept).push(all_links[i as int]));
                }
            }
            i += 1;
        }
        proof {
            assert(all_links.take(self.links@.len() as int) =~= all_links);
        }
        self.links = kept_links;
    }

    /// The directory that serves as web root for `file`.
    pub fn site_root(&self, file: &String, default: &String) -> (r: String)
        requires
            self.wf(),
        ensures
            r@ == self.site_root_of(file@, default@),
    {
        let f = chars_of(file.as_str());
        let c = components_exec(&f);
        let ghost cv = views_of_segments(c@);
        let absolute = f.len() > 0 && f[0] == '/';
        let mut k = c.len();
        while k > 0
            invariant
                k <= c@.len(),
                cv == views_of_segments(c@),
                cv == components(file@),
                absolute == is_absolute(file@),
                self.wf(),
                nearest_marked(self.markers(), absolute, cv, k as int) == nearest_marked(
                    self.markers(),
                    absolute,
                    cv,
                    cv.len() as int,
                ),
            decreases k,
        {
            let mut prefix: Vec<Vec<char>> = Vec::new();
            let mut j: usize = 0;
            while j < k - 1
                invariant
                    j <= k - 1,
                    k <= c@.len(),
                    cv == views_of_segments(c@),
                    views_of_segments(prefix@) == cv.take(j as int),
                decreases k - 1 - j,
            {
                let seg = crate::paths::copy_chars(&c[j]);
                let ghost old_prefix = prefix@;
                prefix.push(seg);
                proof {
                    assert(views_of_segments(prefix@) =~= views_of_segments(old_prefix).push(cv[j as int]));
                    assert(cv.take(j + 1) =~= cv.take(j as int).push(cv[j as int]));
                }
                j += 1;
            }
            let dir = render_segments(absolute, &prefix);
            if contains_chars(&self.markers, &dir) {
                return string_from_chars(&dir);
            }
            k -= 1;
        }
        default.clone()
    }

    /// The existing file that `candidate` names, if any.
    pub fn resolve_existing(&self, candidate: &Vec<char>) -> (r: Option<String>)
        ensures
            opt_view(r) == self.resolve_spec(candidate@),
    {
        let n = normalize_chars(candidate);
        let ghost paths = self.paths();
        let mut i: usize = 0;
        while i < self.files.len()
            invariant
                i <= self.files@.len(),
                paths == self.paths(),
                paths.len() == self.files@.len(),
                n@ == normalize_spec(candidate@),
                forall|j: int| 0 <= j < i ==> paths[j] != n@,
            decreases self.files@.len() - i,
        {
            let p = chars_of(self.files[i].0.as_str());
            proof {
                assert(paths[i as int] == self.files@[i as int].0@);
            }
            if crate::text::chars_eq(&p, &n) {
                proof {
                    assert(paths[i as int] == n@);
                    assert(paths.contains(n@));
                }
                return Some(string_from_chars(&n));
            }
            i += 1;
        }
        proof {
            assert(!paths.contains(n@));
            assert(paths.subrange(0, paths.len() as int) =~= paths);
        }
        let ghost links = self.links();
        let ns = string_from_chars(&n);
        match find_key(&self.links, &ns) {
            Some(k) => {
                proof {
                    assert(keys_of(links)[k as int] == self.links@[k as int].0@);
                    assert forall|j: int| 0 <= j < k implies keys_of(links)[j] != ns@ by {
                        assert(keys_of(links)[j] == self.links@[j].0@);
                    }
                    assert(first_key(keys_of(links), ns@, k as int));
                    lemma_lookup_first(links, ns@, k as int);
                }
                return Some(self.links[k].1.clone());
            },
            None => {
                proof {
                    assert forall|j: int| 0 <= j < keys_of(links).len() implies keys_of(links)[j] != ns@ by {
                        assert(keys_of(links)[j] == self.links@[j].0@);
                    }
                    lemma_lookup_none(links, ns@);
                }
            },
        }
        let mut i: usize = 0;
        while i < self.files.len()
            invariant
                i <= self.files@.len(),
                paths == self.paths(),
                links == self.links(),
                lookup(links, n@) is None,
                paths.len() == self.files@.len(),
                n@ == normalize_spec(candidate@),
                !paths.contains(n@),
                first_case_insensitive(paths.subrange(i as int, paths.len() as int), n@)
                    == first_case_insensitive(paths, n@),
            decreases self.files@.len() - i,
        {
            let p = chars_of(self.files[i].0.as_str());
            let ghost rest = paths.subrange(i as int, paths.len() as int);
            proof {
                assert(paths[i as int] == self.files@[i as int].0@);
                assert(rest[0] == paths[i as int]);
                assert(rest.drop_first() =~= paths.subrange(i + 1, paths.len() as int));
            }
            if chars_eq_ignore_ascii_case(&p, &n) {
                return Some(self.files[i].0.clone());
            }
            i += 1;
        }
        proof {
            assert(paths.subrange(i as int, paths.len() as int) =~= Seq::<Seq<char>>::empty());
            assert(links.subrange(0, links.len() as int) =~= links);
        }
        let mut i: usize = 0;
        while i < self.links.len()
            invariant
                i <= self.links@.len(),
                links == self.links(),
                paths == self.paths(),
                links.len() == self.links@.len(),
                n@ == normalize_spec(candidate@),
                !paths.contains(n@),
                lookup(links, n@) is None,
                first_case_insensitive(paths, n@) is None,
                first_link_case_insensitive(links.subrange(i as int, links.len() as int), n@)
                    == first_link_case_insensitive(links, n@),
            decreases self.links@.len() - i,
        {
            let p = chars_of(self.links[i].0.as_str());
            let ghost rest = links.subrange(i as int, links.len() as int);
            proof {
                assert(links[i as int] == (self.links@[i as int].0@, self.links@[i as int].1@));
                assert(rest[0] == links[i as int]);
                assert(rest.drop_first() =~= links.subrange(i + 1, links.len() as int));
            }
            if chars_eq_ignore_ascii_case(&p, &n) {
                return Some(self.links[i].1.clone());
            }
            i += 1;
        }
        proof {
            assert(links.subrange(i as int, links.len() as int) =~= Seq::<(Seq<char>, Seq<char>)>::empty());
        }
        None
    }
}

fn contains_chars(v: &Vec<Vec<char>>, x: &Vec<char>) -> (r: bool)
    ensures
        r == views_of_segments(v@).contains(x@),
{
    let mut i: usize = 0;
    while i < v.len()
        invariant
            i <= v@.len(),
            forall|j: int| 0 <= j < i ==> v@[j]@ != x@,
        decreases v@.len() - i,
    {
        if crate::text::chars_eq(&v[i], x) {
            proof {
                assert(views_of_segments(v@)[i as int] == x@);
            }
            return true;
        }
        i += 1;
    }
    proof {
        if views_of_segments(v@).contains(x@) {
            let j = choose|j: int| 0 <= j < views_of_segments(v@).len() && views_of_segments(v@)[j] == x@;
            assert(v@[j]@ == x@);
        }
    }
    false
}

fn is_marker_exec(p: &Vec<char>) -> (r: bool)
    ensures
        r == is_marker(p@),
{
    let c = components_exec(p);
    if c.len() == 0 {
        return false;
    }
    let name = vec!['g', 'l', 'o', 'b', 'a', 'l', '.', 'a', 's', 'a'];
    proof {
        assert(name@ =~= marker_name());
        assert(views_of_segments(c@).last() == c@[c@.len() - 1]@);
    }
    chars_eq_ignore_ascii_case(&c[c.len() - 1], &name)
}

fn compute_markers(files: &Vec<(String, Option<String>)>) -> (r: Vec<Vec<char>>)
    ensures
        views_of_segments(r@) == marker_dirs(keys_of(disk_entries_view(files@))),
{
    let ghost paths = keys_of(disk_entries_view(files@));
    let mut r: Vec<Vec<char>> = Vec::new();
    let mut i: usize = 0;
    while i < files.len()
        invariant
            i <= files@.len(),
            paths == keys_of(disk_entries_view(files@)),
            views_of_segments(r@) == marker_dirs(paths.take(i as int)),
        decreases files@.len() - i,
    {
        let p = chars_of(files[i].0.as_str());
        proof {
            assert(paths.take(i + 1).drop_last() =~= paths.take(i as int));
            assert(paths.take(i + 1).last() == p@);
        }
        if is_marker_exec(&p) {
            match parent_chars(&p) {
                Some(d) => {
                    let ghost old_r = r@;
                    r.push(d);
                    proof {
                        assert(views_of_segments(r@) =~= views_of_segments(old_r).push(d@));
                    }
                },
                None => {
                    proof {
                        assert(components(p@).len() > 0);
                    }
                },
            }
        }
        i += 1;
    }
    proof {
        assert(paths.take(files@.len() as int) =~= paths);
    }
    r
}

} // verus!
