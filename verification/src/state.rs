//! The server's state: open buffers, the files known on disk, and the index
//! of every parsed file; and the queries over it that follow includes.

use vstd::prelude::*;
use crate::files::{find_key, first_key, keys_of, lemma_filter_unique, lemma_lookup_push, lemma_lookup_upsert, lemma_lookup_upsert_other, lemma_upsert_same_keys, lemma_lookup_first, lemma_lookup_none, lemma_upsert_first, lemma_upsert_none, lemma_upsert_unique, lookup, opt_view, upsert, Disk};
use crate::parse::{includes_view, parse_file, parse_spec, FileIndex, FileIndexView, IncludeDirective, IncludeView, SymbolDef, SymbolView};
use crate::paths::{components, components_exec, dot, dot_dot, is_absolute, join_chars, join_spec, normalize_chars, normalize_spec, string_from_chars, views_of_segments};
use crate::closure::{all_targets, bfs, closure_bound, definitions_everywhere, definitions_in, find_definitions_spec, include_closure_spec, include_targets, includers_spec, includes_to, lemma_distinct_subseq_len, lemma_include_targets_step, lemma_order_least, closed_set, lemma_search_done, lemma_successors_in_all, lemma_visit_new, named, successors, successors_within, queued_by, included_by_earlier};
use crate::text::{ascii_lower_seq, chars_of, eq_ignore_ascii_case, str_eq_ignore_ascii_case, to_ascii_lowercase};

pub use crate::location::{path_to_uri, symbol_location};
pub use crate::position::{byte_to_utf16_col, span_to_range, string_at, utf16_col_to_byte, word_at, Position, Range};

verus! {

/// At most this many files are indexed by a workspace scan.
pub const MAX_INDEXED_FILES: usize = 20000;

pub struct State {
    pub root: String,
    pub web_root: String,
    /// Whether the client supports `LocationLink` responses for definitions.
    pub definition_link_support: bool,
    /// Open-buffer contents, keyed by canonical path.
    overlays: Vec<(String, String)>,
    /// The index of each parsed file, keyed by canonical path.
    index: Vec<(String, FileIndex)>,
    /// The files known to exist, with their texts.
    disk: Disk,
}

pub open spec fn overlays_view(v: Seq<(String, String)>) -> Seq<(Seq<char>, Seq<char>)> {
    v.map_values(|e: (String, String)| (e.0@, e.1@))
}

pub open spec fn index_view(v: Seq<(String, FileIndex)>) -> Seq<(Seq<char>, FileIndexView)> {
    v.map_values(|e: (String, FileIndex)| (e.0@, e.1@))
}

pub open spec fn include_pairs_view(v: Seq<(String, IncludeDirective)>) -> Seq<(Seq<char>, IncludeView)> {
    v.map_values(|e: (String, IncludeDirective)| (e.0@, e.1@))
}

pub open spec fn symbol_pairs_view(v: Seq<(String, SymbolDef)>) -> Seq<(Seq<char>, SymbolView)> {
    v.map_values(|e: (String, SymbolDef)| (e.0@, e.1@))
}

pub open spec fn strings_view(v: Seq<String>) -> Seq<Seq<char>> {
    v.map_values(|s: String| s@)
}

/// The web root a workspace gets: the configured one (relative to the
/// workspace root unless absolute), or the workspace root itself.
pub open spec fn web_root_spec(root: Seq<char>, web_root: Option<Seq<char>>) -> Seq<char> {
    match web_root {
        Some(w) => if is_absolute(w) {
            w
        } else {
            join_spec(root, w)
        },
        None => root,
    }
}

/// Some include of `incs` is unresolved, or resolves to a file no longer known to exist.
pub open spec fn has_stale_include(paths: Seq<Seq<char>>, incs: Seq<IncludeView>) -> bool {
    exists|k: int|
        0 <= k < incs.len() && match #[trigger] incs[k].resolved {
            None => true,
            Some(p) => !paths.contains(p),
        }
}

/// The indexed files other than `changed` whose cached include resolution may
/// be out of date, in index order.
pub open spec fn stale_files(
    idx: Seq<(Seq<char>, FileIndexView)>,
    paths: Seq<Seq<char>>,
    changed: Seq<char>,
) -> Seq<Seq<char>>
    decreases idx.len(),
{
    if idx.len() == 0 {
        Seq::empty()
    } else {
        stale_files(idx.drop_last(), paths, changed) + if idx.last().0 != changed
            && has_stale_include(paths, idx.last().1.includes) {
            seq![idx.last().0]
        } else {
            Seq::empty()
        }
    }
}

/// Position of the last `.` among the first `n` characters of `name`, or -1.
pub open spec fn last_dot(name: Seq<char>, n: int) -> int
    decreases n,
{
    if n <= 0 || n > name.len() {
        -1
    } else if name[n - 1] == '.' {
        n - 1
    } else {
        last_dot(name, n - 1)
    }
}

/// `Path::file_name`: the last component, unless it is `.` or `..`.
pub open spec fn file_name_spec(p: Seq<char>) -> Option<Seq<char>> {
    let c = components(p);
    if c.len() > 0 && c.last() != dot() && c.last() != dot_dot() {
        Some(c.last())
    } else {
        None
    }
}

/// `Path::extension` of a file name: what follows its last `.`, unless there
/// is no `.` or the only one starts the name.
pub open spec fn extension_spec(name: Seq<char>) -> Option<Seq<char>> {
    let k = last_dot(name, name.len() as int);
    if k <= 0 {
        None
    } else {
        Some(name.subrange(k + 1, name.len() as int))
    }
}

/// The extensions of the files a workspace scan indexes.
pub open spec fn is_indexed_extension(e: Seq<char>) -> bool {
    e == seq!['a', 's', 'p'] || e == seq!['a', 's', 'a'] || e == seq!['i', 'n', 'c'] || e == seq!['v', 'b', 's']
}

/// `p` has one of the indexed extensions, in any ASCII case.
pub open spec fn has_indexed_extension(p: Seq<char>) -> bool {
    match file_name_spec(p) {
        Some(n) => match extension_spec(n) {
            Some(e) => is_indexed_extension(ascii_lower_seq(e)),
            None => false,
        },
        None => false,
    }
}

/// A directory entry a workspace scan does not descend into or index:
/// hidden names, `node_modules` and `target`.
pub open spec fn is_skipped_name_spec(name: Seq<char>) -> bool {
    (name.len() > 0 && name[0] == '.') || name == seq!['n', 'o', 'd', 'e', '_', 'm', 'o', 'd', 'u', 'l', 'e', 's']
        || name == seq!['t', 'a', 'r', 'g', 'e', 't']
}

pub open spec fn scan_accepts(e: (Seq<char>, Seq<char>)) -> bool {
    has_indexed_extension(e.0)
}

pub open spec fn pairs_view(v: Seq<(String, String)>) -> Seq<(Seq<char>, Seq<char>)> {
    v.map_values(|e: (String, String)| (e.0@, e.1@))
}

pub open spec fn canonical_paths(v: Seq<(Seq<char>, Seq<char>)>) -> Seq<Seq<char>> {
    v.map_values(|e: (Seq<char>, Seq<char>)| e.1)
}

/// The canonical paths a scan of the walked entries indexes: those of the
/// entries with an indexed extension, at most `MAX_INDEXED_FILES` of them.
pub open spec fn scan_filter() -> spec_fn((Seq<char>, Seq<char>)) -> bool {
    |e: (Seq<char>, Seq<char>)| scan_accepts(e)
}

pub open spec fn scan_selection(walked: Seq<(Seq<char>, Seq<char>)>) -> Seq<Seq<char>> {
    let accepted = walked.filter(scan_filter());
    canonical_paths(
        if accepted.len() > MAX_INDEXED_FILES {
            accepted.take(MAX_INDEXED_FILES as int)
        } else {
            accepted
        },
    )
}

impl State {
    /// The index after re-parsing each of `files` in turn, starting from `idx`.
    pub open spec fn reindex_all(&self, idx: Seq<(Seq<char>, FileIndexView)>, files: Seq<Seq<char>>) -> Seq<(Seq<char>, FileIndexView)>
        decreases files.len(),
    {
        if files.len() == 0 {
            idx
        } else {
            let before = self.reindex_all(idx, files.drop_last());
            match self.text_spec(files.last()) {
                Some(t) => upsert(before, files.last(), self.index_for(files.last(), t)),
                None => before,
            }
        }
    }
}

impl State {
    pub closed spec fn overlays_spec(&self) -> Seq<(Seq<char>, Seq<char>)> {
        overlays_view(self.overlays@)
    }

    pub closed spec fn index_spec(&self) -> Seq<(Seq<char>, FileIndexView)> {
        index_view(self.index@)
    }

    pub closed spec fn disk_spec(&self) -> Disk {
        self.disk
    }

    pub closed spec fn root_view(&self) -> Seq<char> {
        self.root@
    }

    pub closed spec fn web_root_view(&self) -> Seq<char> {
        self.web_root@
    }

    pub closed spec fn link_support(&self) -> bool {
        self.definition_link_support
    }

    /// The disk snapshot is well formed, and no path has two index entries
    /// or two open buffers.
    pub closed spec fn wf(&self) -> bool {
        &&& self.disk.wf()
        &&& keys_of(self.index_spec()).no_duplicates()
        &&& keys_of(self.overlays_spec()).no_duplicates()
    }

    /// In a well-formed state each path has at most one index entry and one
    /// open buffer.
    pub proof fn lemma_unique_keys(&self)
        requires
            self.wf(),
        ensures
            keys_of(self.index_spec()).no_duplicates(),
            keys_of(self.overlays_spec()).no_duplicates(),
    {
    }

    /// The text of `p`: its open buffer, else what was last read from disk.
    pub open spec fn text_spec(&self, p: Seq<char>) -> Option<Seq<char>> {
        match lookup(self.overlays_spec(), p) {
            Some(t) => Some(t),
            None => self.disk_spec().text_spec(p),
        }
    }

    /// The index `text` gives for `p`: includes resolve against the files on
    /// disk, `virtual=` paths against the site root of `p`.
    pub open spec fn index_for(&self, p: Seq<char>, text: Seq<char>) -> FileIndexView {
        parse_spec(
            text,
            p,
            self.disk_spec().site_root_of(p, self.web_root_view()),
            self.disk_spec().known(),
        )
    }

    /// The index after re-parsing `p` (unchanged when `p` has no text).
    pub open spec fn reindexed(&self, p: Seq<char>) -> Seq<(Seq<char>, FileIndexView)> {
        match self.text_spec(p) {
            Some(t) => upsert(self.index_spec(), p, self.index_for(p, t)),
            None => self.index_spec(),
        }
    }

    /// The index `idx` after re-parsing `p` with this state's texts.
    pub open spec fn reindexed_from(&self, idx: Seq<(Seq<char>, FileIndexView)>, p: Seq<char>) -> Seq<(Seq<char>, FileIndexView)> {
        match self.text_spec(p) {
            Some(t) => upsert(idx, p, self.index_for(p, t)),
            None => idx,
        }
    }

    /// A state for the workspace at `root` with no file indexed yet.
    pub fn new(root: String, web_root: Option<String>, disk: Disk) -> (r: State)
        requires
            disk.wf(),
        ensures
            r.wf(),
            r.root_view() == root@,
            r.web_root_view() == web_root_spec(root@, opt_view(web_root)),
            !r.link_support(),
            r.overlays_spec().len() == 0,
            r.index_spec().len() == 0,
            r.disk_spec() == disk,
    {
        let w = match web_root {
            Some(w) => {
                let wc = chars_of(w.as_str());
                if wc.len() > 0 && wc[0] == '/' {
                    w
                } else {
                    let rc = chars_of(root.as_str());
                    let j = join_chars(&rc, &wc);
                    string_from_chars(&j)
                }
            },
            None => root.clone(),
        };
        let r = State {
            root,
            web_root: w,
            definition_link_support: false,
            overlays: Vec::new(),
            index: Vec::new(),
            disk,
        };
        proof {
            assert(r.overlays_spec().len() == 0);
            assert(r.index_spec().len() == 0);
        }
        r
    }

    /// The canonical form of `path`: its canonicalized form when the file
    /// system gave one, else its lexical normalization.
    pub fn canon(path: &str, canonical: Option<String>) -> (r: String)
        ensures
            r@ == match canonical {
                Some(c) => c@,
                None => normalize_spec(path@),
            },
    {
        match canonical {
            Some(c) => c,
            None => crate::paths::normalize(path),
        }
    }

    /// The files known to exist on disk.
    pub fn disk(&self) -> (r: &Disk)
        ensures
            *r == self.disk_spec(),
    {
        &self.disk
    }

    /// Records `p` as existing on disk, with the text just read from it.
    pub fn set_disk_file(&mut self, p: String, text: Option<String>)
        requires
            old(self).wf(),
        ensures
            final(self).wf(),
            final(self).disk_spec().entries() == upsert(old(self).disk_spec().entries(), p@, opt_view(text)),
            final(self).index_spec() == old(self).index_spec(),
            final(self).overlays_spec() == old(self).overlays_spec(),
            final(self).web_root_view() == old(self).web_root_view(),
            final(self).root_view() == old(self).root_view(),
            final(self).link_support() == old(self).link_support(),
    {
        self.disk.set_file(p, text);
    }

    /// Records that `p` no longer exists on disk.
    pub fn forget_disk_file(&mut self, p: &String)
        requires
            old(self).wf(),
        ensures
            final(self).wf(),
            final(self).disk_spec().entries() == old(self).disk_spec().entries().filter(
                |e: (Seq<char>, Option<Seq<char>>)| e.0 != p@,
            ),
            final(self).index_spec() == old(self).index_spec(),
            final(self).overlays_spec() == old(self).overlays_spec(),
            final(self).web_root_view() == old(self).web_root_view(),
            final(self).root_view() == old(self).root_view(),
            final(self).link_support() == old(self).link_support(),
    {
        self.disk.forget(p);
    }

    /// Number of indexed files.
    pub fn index_len(&self) -> (r: usize)
        ensures
            r == self.index_spec().len(),
    {
        self.index.len()
    }

    /// The paths of the indexed files, in index order.
    pub fn indexed_paths(&self) -> (r: Vec<String>)
        ensures
            strings_view(r@) == keys_of(self.index_spec()),
    {
        let mut r: Vec<String> = Vec::new();
        let mut i: usize = 0;
        while i < self.index.len()
            invariant
                i <= self.index@.len(),
                strings_view(r@) == keys_of(self.index_spec()).take(i as int),
            decreases self.index@.len() - i,
        {
            let ghost old_r = r@;
            let k = self.index[i].0.clone();
            r.push(k);
            proof {
                assert(keys_of(self.index_spec())[i as int] == self.index@[i as int].0@);
                assert(strings_view(r@) =~= strings_view(old_r).push(k@));
                assert(strings_view(r@) =~= keys_of(self.index_spec()).take(i + 1));
            }
            i += 1;
        }
        proof {
            assert(keys_of(self.index_spec()).take(i as int) =~= keys_of(self.index_spec()));
        }
        r
    }

    /// The index of `p`, if `p` is indexed.
    pub fn index_of(&self, p: &String) -> (r: Option<&FileIndex>)
        ensures
            match r {
                Some(fi) => lookup(self.index_spec(), p@) == Some(fi@),
                None => lookup(self.index_spec(), p@) is None,
            },
    {
        match find_key(&self.index, p) {
            Some(i) => {
                proof {
                    assert(first_key(keys_of(self.index_spec()), p@, i as int));
                    lemma_lookup_first(self.index_spec(), p@, i as int);
                }
                Some(&self.index[i].1)
            },
            None => {
                proof {
                    lemma_lookup_none(self.index_spec(), p@);
                }
                None
            },
        }
    }

    /// Sets the open-buffer contents of `p`.
    pub fn set_overlay(&mut self, p: String, text: String)
        requires
            old(self).wf(),
        ensures
            final(self).wf(),
            final(self).overlays_spec() == upsert(old(self).overlays_spec(), p@, text@),
            final(self).index_spec() == old(self).index_spec(),
            final(self).disk_spec() == old(self).disk_spec(),
            final(self).web_root_view() == old(self).web_root_view(),
            final(self).root_view() == old(self).root_view(),
            final(self).link_support() == old(self).link_support(),
    {
        let ghost pv = p@;
        let ghost tv = text@;
        let ghost before = self.overlays_spec();
        match find_key(&self.overlays, &p) {
            Some(i) => {
                self.overlays.set(i, (p, text));
                proof {
                    assert(first_key(keys_of(before), pv, i as int));
                    lemma_upsert_first(before, pv, tv, i as int);
                    assert(self.overlays_spec() =~= before.update(i as int, (pv, tv)));
                }
            },
            None => {
                self.overlays.push((p, text));
                proof {
                    lemma_upsert_none(before, pv, tv);
                    assert(self.overlays_spec() =~= before.push((pv, tv)));
                }
            },
        }
        proof {
            lemma_upsert_unique(before, pv, tv);
        }
    }

    /// Discards the open-buffer contents of `p`.
    pub fn remove_overlay(&mut self, p: &String)
        requires
            old(self).wf(),
        ensures
            final(self).wf(),
            final(self).overlays_spec() == old(self).overlays_spec().filter(
                |e: (Seq<char>, Seq<char>)| e.0 != p@,
            ),
            final(self).index_spec() == old(self).index_spec(),
            final(self).disk_spec() == old(self).disk_spec(),
            final(self).web_root_view() == old(self).web_root_view(),
            final(self).root_view() == old(self).root_view(),
            final(self).link_support() == old(self).link_support(),
    {
        let ghost pred = |e: (Seq<char>, Seq<char>)| e.0 != p@;
        let ghost all = self.overlays_spec();
        let mut kept: Vec<(String, String)> = Vec::new();
        let mut i: usize = 0;
        while i < self.overlays.len()
            invariant
                i <= self.overlays@.len(),
                all == overlays_view(self.overlays@),
                pred == (|e: (Seq<char>, Seq<char>)| e.0 != p@),
                overlays_view(kept@) == all.take(i as int).filter(pred),
            decreases self.overlays@.len() - i,
        {
            proof {
                assert(all.take(i + 1) =~= all.take(i as int).push(all[i as int]));
                all.take(i as int).lemma_filter_push(all[i as int], pred);
            }
            if self.overlays[i].0 != *p {
                let e = (self.overlays[i].0.clone(), self.overlays[i].1.clone());
                let ghost old_kept = kept@;
                kept.push(e);
                proof {
                    assert(overlays_view(kept@) =~= overlays_view(old_kept).push(all[i as int]));
                }
            }
            i += 1;
        }
        proof {
            assert(all.take(i as int) =~= all);
        }
        self.overlays = kept;
        proof {
            lemma_filter_unique(all, pred);
        }
    }

    /// The text of `path`: its open buffer, else what was last read from disk.
    pub fn text_of(&self, path: &String) -> (r: Option<String>)
        ensures
            opt_view(r) == self.text_spec(path@),
    {
        match find_key(&self.overlays, path) {
            Some(i) => {
                proof {
                    assert(first_key(keys_of(self.overlays_spec()), path@, i as int));
                    lemma_lookup_first(self.overlays_spec(), path@, i as int);
                }
                Some(self.overlays[i].1.clone())
            },
            None => {
                proof {
                    lemma_lookup_none(self.overlays_spec(), path@);
                }
                self.disk.text(path)
            },
        }
    }

    /// Files reachable from `start` by following resolved includes (breadth-first,
    /// `start` itself first).
    pub fn include_closure(&self, start: &String) -> (r: Vec<String>)
        ensures
            strings_view(r@) == include_closure_spec(self.index_spec(), start@),
            r@.len() > 0,
            strings_view(r@)[0] == start@,
            strings_view(r@).no_duplicates(),
            successors_within(self.index_spec(), strings_view(r@), strings_view(r@)),
            included_by_earlier(self.index_spec(), strings_view(r@)),
            forall|set: Set<Seq<char>>|
                set.contains(start@) && #[trigger] closed_set(self.index_spec(), set) ==> forall|i: int|
                    0 <= i < r@.len() ==> set.contains(#[trigger] strings_view(r@)[i]),
    {
        let ghost idx = self.index_spec();
        let ghost t: int = all_targets(idx).len() as int;
        let ghost bound: int = closure_bound(idx) as int;
        let ghost u = seq![start@] + all_targets(idx);
        let mut queue: Vec<String> = Vec::new();
        queue.push(start.clone());
        let mut head: usize = 0;
        let mut order: Vec<String> = Vec::new();
        proof {
            assert(strings_view(queue@).skip(0) =~= seq![start@]);
            assert(strings_view(order@) =~= Seq::<Seq<char>>::empty());
            assert(u[0] == start@);
            assert forall|x: Seq<char>| strings_view(queue@).contains(x) implies u.contains(x) by {
                assert(strings_view(queue@)[0] == start@);
            }
        }
        while head < queue.len()
            invariant
                idx == self.index_spec(),
                head <= queue@.len(),
                t == all_targets(idx).len(),
                bound == closure_bound(idx),
                u == seq![start@] + all_targets(idx),
                bfs(idx, strings_view(queue@).skip(head as int), strings_view(order@), (bound - head) as nat)
                    == include_closure_spec(idx, start@),
                strings_view(order@).no_duplicates(),
                forall|x: Seq<char>| strings_view(order@).contains(x) ==> u.contains(x),
                forall|x: Seq<char>| strings_view(queue@).contains(x) ==> u.contains(x),
                queue@.len() <= 1 + order@.len() * t,
                queue@.len() > 0,
                strings_view(queue@)[0] == start@,
                head == 0 ==> order@.len() == 0,
                head > 0 ==> order@.len() > 0 && strings_view(order@)[0] == start@,
                forall|k: int| 0 <= k < head ==> #[trigger] strings_view(order@).contains(strings_view(queue@)[k]),
                successors_within(idx, strings_view(order@), strings_view(queue@)),
                queued_by(idx, strings_view(order@), strings_view(queue@)),
                included_by_earlier(idx, strings_view(order@)),
            decreases bound - head,
        {
            let ghost qv = strings_view(queue@);
            let ghost ov = strings_view(order@);
            proof {
                lemma_distinct_subseq_len(ov, u);
                assert(order@.len() * t <= (1 + t) * t) by (nonlinear_arith)
                    requires
                        order@.len() <= 1 + t,
                        t >= 0,
                ;
                assert(qv.skip(head as int)[0] == qv[head as int]);
            }
            let f = queue[head].clone();
            head += 1;
            proof {
                assert(qv.skip(head as int) =~= qv.skip(head - 1).drop_first());
                assert(qv.contains(f@));
            }
            if contains_string(&order, &f) {
                continue;
            }
            proof {
                lemma_visit_new(idx, ov, qv, head as int, start@);
            }
            order.push(f.clone());
            proof {
                assert(strings_view(order@) =~= ov.push(f@));
                assert forall|a: int, b: int| 0 <= a < b < strings_view(order@).len() implies strings_view(order@)[a] != strings_view(order@)[b] by {
                    if b == ov.len() {
                        assert(ov.contains(strings_view(order@)[a]));
                    }
                }
                assert forall|x: Seq<char>| strings_view(order@).contains(x) implies u.contains(x) by {
                    if x != f@ {
                        assert(ov.contains(x));
                    }
                }
            }
            let ghost q0 = strings_view(queue@);
            let ghost q0_len = queue@.len();
            match find_key(&self.index, &f) {
                Some(i) => {
                    proof {
                        assert(first_key(keys_of(idx), f@, i as int));
                        lemma_lookup_first(idx, f@, i as int);
                    }
                    let incs = &self.index[i].1.includes;
                    let ghost iv = includes_view(incs@);
                    proof {
                        assert(successors(idx, f@) == include_targets(iv));
                        lemma_successors_in_all(idx, f@);
                    }
                    let mut j: usize = 0;
                    while j < incs.len()
                        invariant
                            j <= incs@.len(),
                            iv == includes_view(incs@),
                            strings_view(queue@) == q0 + include_targets(iv.take(j as int)),
                        decreases incs@.len() - j,
                    {
                        proof {
                            lemma_include_targets_step(iv, j as int);
                        }
                        match &incs[j].resolved {
                            Some(target) => {
                                let ghost before = strings_view(queue@);
                                queue.push(target.clone());
                                proof {
                                    assert(strings_view(queue@) =~= before.push(target@));
                                    assert(iv[j as int].resolved == Some(target@));
                                    assert(strings_view(queue@) =~= q0 + include_targets(iv.take(j + 1)));
                                }
                            },
                            None => {
                                proof {
                                    assert(iv[j as int].resolved is None);
                                    assert(include_targets(iv.take(j + 1)) =~= include_targets(iv.take(j as int)));
                                }
                            },
                        }
                        j += 1;
                    }
                    proof {
                        assert(iv.take(j as int) =~= iv);
                    }
                },
                None => {
                    proof {
                        lemma_lookup_none(idx, f@);
                        assert(strings_view(queue@) =~= q0 + successors(idx, f@));
                    }
                },
            }
            proof {
                let succ = successors(idx, f@);
                lemma_successors_in_all(idx, f@);
                assert(strings_view(queue@) == q0 + succ);
                assert(strings_view(queue@).skip(head as int) =~= q0.skip(head as int) + succ);
                assert(queue@.len() <= 1 + strings_view(order@).len() * t) by (nonlinear_arith)
                    requires
                        queue@.len() == q0_len + succ.len(),
                        q0_len <= 1 + ov.len() * t,
                        succ.len() <= t,
                        strings_view(order@).len() == ov.len() + 1,
                ;
                assert forall|x: Seq<char>| strings_view(queue@).contains(x) implies u.contains(x) by {
                    let k = choose|k: int| 0 <= k < strings_view(queue@).len() && strings_view(queue@)[k] == x;
                    if k < q0.len() {
                        assert(q0[k] == x);
                        assert(q0.contains(x));
                    } else {
                        assert(succ[k - q0.len()] == x);
                        assert(succ.contains(x));
                        assert(all_targets(idx).contains(x));
                        let m = choose|m: int| 0 <= m < all_targets(idx).len() && all_targets(idx)[m] == x;
                        assert(u[m + 1] == x);
                    }
                }
            }
        }
        proof {
            assert(strings_view(queue@).skip(head as int).len() == 0);
            lemma_search_done(idx, strings_view(order@), strings_view(queue@));
            assert forall|set: Set<Seq<char>>|
                set.contains(start@) && #[trigger] closed_set(idx, set) implies forall|i: int|
                    0 <= i < order@.len() ==> set.contains(#[trigger] strings_view(order@)[i]) by {
                lemma_order_least(idx, strings_view(order@), start@, set);
            }
        }
        order
    }

    /// All include directives across the workspace that resolve to `target`.
    pub fn includers_of(&self, target: &String) -> (r: Vec<(String, IncludeDirective)>)
        ensures
            include_pairs_view(r@) == includers_spec(self.index_spec(), target@),
    {
        let ghost idx = self.index_spec();
        let mut out: Vec<(String, IncludeDirective)> = Vec::new();
        let mut i: usize = 0;
        while i < self.index.len()
            invariant
                i <= self.index@.len(),
                idx == self.index_spec(),
                include_pairs_view(out@) == includers_spec(idx.take(i as int), target@),
            decreases self.index@.len() - i,
        {
            let file = &self.index[i].0;
            let incs = &self.index[i].1.includes;
            let ghost iv = includes_view(incs@);
            let ghost before = include_pairs_view(out@);
            proof {
                assert(idx.take(i + 1).drop_last() =~= idx.take(i as int));
                assert(idx.take(i + 1).last() == (file@, self.index@[i as int].1@));
                assert(iv.take(0) =~= Seq::<IncludeView>::empty());
            }
            let mut j: usize = 0;
            while j < incs.len()
                invariant
                    j <= incs@.len(),
                    iv == includes_view(incs@),
                    include_pairs_view(out@) == before + includes_to(file@, iv.take(j as int), target@),
                decreases incs@.len() - j,
            {
                proof {
                    assert(iv.take(j + 1).drop_last() =~= iv.take(j as int));
                    assert(iv.take(j + 1).last() == incs@[j as int]@);
                }
                let hit = match &incs[j].resolved {
                    Some(p) => *p == *target,
                    None => false,
                };
                if hit {
                    let d = incs[j].copy();
                    let ghost old_out = out@;
                    out.push((file.clone(), d));
                    proof {
                        assert(include_pairs_view(out@) =~= include_pairs_view(old_out).push((file@, d@)));
                        assert(include_pairs_view(out@) =~= before + includes_to(file@, iv.take(j + 1), target@));
                    }
                } else {
                    proof {
                        assert(include_pairs_view(out@) =~= before + includes_to(file@, iv.take(j + 1), target@));
                    }
                }
                j += 1;
            }
            proof {
                assert(iv.take(j as int) =~= iv);
            }
            i += 1;
        }
        proof {
            assert(idx.take(i as int) =~= idx);
        }
        out
    }

    /// Appends the definitions among `syms` named `name`, each with `file`.
    fn push_named(out: &mut Vec<(String, SymbolDef)>, file: &String, syms: &Vec<SymbolDef>, name: &str)
        ensures
            symbol_pairs_view(final(out)@) == symbol_pairs_view(old(out)@) + named(
                file@,
                crate::parse::symbols_view(syms@),
                name@,
            ),
    {
        let ghost sv = crate::parse::symbols_view(syms@);
        let ghost before = symbol_pairs_view(out@);
        let mut j: usize = 0;
        proof {
            assert(sv.take(0) =~= Seq::<SymbolView>::empty());
        }
        while j < syms.len()
            invariant
                j <= syms@.len(),
                sv == crate::parse::symbols_view(syms@),
                symbol_pairs_view(out@) == before + named(file@, sv.take(j as int), name@),
            decreases syms@.len() - j,
        {
            proof {
                assert(sv.take(j + 1).drop_last() =~= sv.take(j as int));
                assert(sv.take(j + 1).last() == syms@[j as int]@);
            }
            if str_eq_ignore_ascii_case(syms[j].name.as_str(), name) {
                let d = syms[j].copy();
                let ghost old_out = out@;
                out.push((file.clone(), d));
                proof {
                    assert(symbol_pairs_view(out@) =~= symbol_pairs_view(old_out).push((file@, d@)));
                    assert(symbol_pairs_view(out@) =~= before + named(file@, sv.take(j + 1), name@));
                }
            } else {
                proof {
                    assert(symbol_pairs_view(out@) =~= before + named(file@, sv.take(j + 1), name@));
                }
            }
            j += 1;
        }
        proof {
            assert(sv.take(j as int) =~= sv);
        }
    }

    /// Definitions of `name` (case-insensitive), searching the include closure of
    /// `from` first; falls back to the whole workspace index.
    pub fn find_definitions(&self, from: &String, name: &str) -> (r: Vec<(String, SymbolDef)>)
        ensures
            symbol_pairs_view(r@) == find_definitions_spec(self.index_spec(), from@, name@),
    {
        let ghost idx = self.index_spec();
        let closure = self.include_closure(from);
        let ghost cv = strings_view(closure@);
        let mut hits: Vec<(String, SymbolDef)> = Vec::new();
        let mut k: usize = 0;
        proof {
            assert(cv.take(0) =~= Seq::<Seq<char>>::empty());
        }
        while k < closure.len()
            invariant
                k <= closure@.len(),
                idx == self.index_spec(),
                cv == strings_view(closure@),
                symbol_pairs_view(hits@) == definitions_in(idx, cv.take(k as int), name@),
            decreases closure@.len() - k,
        {
            let file = &closure[k];
            proof {
                assert(cv.take(k + 1).drop_last() =~= cv.take(k as int));
                assert(cv.take(k + 1).last() == file@);
            }
            match find_key(&self.index, file) {
                Some(i) => {
                    proof {
                        assert(first_key(keys_of(idx), file@, i as int));
                        lemma_lookup_first(idx, file@, i as int);
                    }
                    Self::push_named(&mut hits, file, &self.index[i].1.symbols, name);
                },
                None => {
                    proof {
                        lemma_lookup_none(idx, file@);
                        assert(symbol_pairs_view(hits@) =~= definitions_in(idx, cv.take(k + 1), name@));
                    }
                },
            }
            k += 1;
        }
        proof {
            assert(cv.take(k as int) =~= cv);
        }
        if hits.len() > 0 {
            return hits;
        }
        let mut i: usize = 0;
        proof {
            assert(idx.take(0) =~= Seq::<(Seq<char>, FileIndexView)>::empty());
            assert(symbol_pairs_view(hits@) =~= Seq::<(Seq<char>, SymbolView)>::empty());
        }
        while i < self.index.len()
            invariant
                i <= self.index@.len(),
                idx == self.index_spec(),
                symbol_pairs_view(hits@) == definitions_everywhere(idx.take(i as int), name@),
            decreases self.index@.len() - i,
        {
            proof {
                assert(idx.take(i + 1).drop_last() =~= idx.take(i as int));
                assert(idx.take(i + 1).last() == (self.index@[i as int].0@, self.index@[i as int].1@));
            }
            Self::push_named(&mut hits, &self.index[i].0, &self.index[i].1.symbols, name);
            i += 1;
        }
        proof {
            assert(idx.take(i as int) =~= idx);
        }
        hits
    }

    /// Re-resolves files whose cached include state may have been invalidated
    /// by a change elsewhere: any file with an include that is unresolved (the
    /// target may have just been created) or whose resolved target no longer
    /// exists (just deleted). Returns the reindexed paths.
    pub fn reindex_dependents(&mut self, changed: &String) -> (r: Vec<String>)
        requires
            old(self).wf(),
        ensures
            final(self).wf(),
            strings_view(r@) == stale_files(old(self).index_spec(), old(self).disk_spec().paths(), changed@),
            final(self).index_spec() == old(self).reindex_all(old(self).index_spec(), strings_view(r@)),
            strings_view(r@).no_duplicates(),
            forall|f: Seq<char>|
                #[trigger] strings_view(r@).contains(f) <==> (keys_of(old(self).index_spec()).contains(f) && f
                    != changed@ && has_stale_include(
                    old(self).disk_spec().paths(),
                    lookup(old(self).index_spec(), f)->0.includes,
                )),
            keys_of(final(self).index_spec()) == keys_of(old(self).index_spec()),
            forall|f: Seq<char>|
                #[trigger] lookup(final(self).index_spec(), f) == if strings_view(r@).contains(f) && old(
                    self,
                ).text_spec(f) is Some {
                    Some(old(self).index_for(f, old(self).text_spec(f)->0))
                } else {
                    lookup(old(self).index_spec(), f)
                },
            final(self).overlays_spec() == old(self).overlays_spec(),
            final(self).disk_spec() == old(self).disk_spec(),
            final(self).web_root_view() == old(self).web_root_view(),
            final(self).root_view() == old(self).root_view(),
            final(self).link_support() == old(self).link_support(),
    {
        let ghost s0 = *self;
        proof {
            lemma_stale_files(self.index_spec(), self.disk.paths(), changed@);
            lemma_reindex_all(*self, self.index_spec(), stale_files(self.index_spec(), self.disk.paths(), changed@));
        }
        let ghost idx = self.index_spec();
        let ghost paths = self.disk.paths();
        let mut stale: Vec<String> = Vec::new();
        let mut i: usize = 0;
        proof {
            assert(idx.take(0) =~= Seq::<(Seq<char>, FileIndexView)>::empty());
        }
        while i < self.index.len()
            invariant
                i <= self.index@.len(),
                idx == self.index_spec(),
                paths == self.disk.paths(),
                strings_view(stale@) == stale_files(idx.take(i as int), paths, changed@),
            decreases self.index@.len() - i,
        {
            let file = &self.index[i].0;
            let incs = &self.index[i].1.includes;
            let ghost iv = includes_view(incs@);
            proof {
                assert(idx.take(i + 1).drop_last() =~= idx.take(i as int));
                assert(idx.take(i + 1).last() == (file@, self.index@[i as int].1@));
            }
            let mut broken = false;
            let mut j: usize = 0;
            while j < incs.len()
                invariant
                    j <= incs@.len(),
                    iv == includes_view(incs@),
                    paths == self.disk.paths(),
                    !broken ==> forall|k: int| 0 <= k < j ==> match #[trigger] iv[k].resolved {
                        None => false,
                        Some(p) => paths.contains(p),
                    },
                    broken ==> has_stale_include(paths, iv),
                decreases incs@.len() - j,
            {
                if !broken {
                    let bad = match &incs[j].resolved {
                        None => true,
                        Some(p) => !self.disk.has_file(p),
                    };
                    if bad {
                        broken = true;
                        proof {
                            assert(match iv[j as int].resolved {
                                None => true,
                                Some(p) => !paths.contains(p),
                            });
                        }
                    }
                }
                j += 1;
            }
            proof {
                if !broken {
                    assert(!has_stale_include(paths, iv));
                }
            }
            if *file != *changed && broken {
                let ghost old_stale = stale@;
                stale.push(file.clone());
                proof {
                    assert(strings_view(stale@) =~= strings_view(old_stale).push(file@));
                    assert(strings_view(stale@) =~= stale_files(idx.take(i + 1), paths, changed@));
                }
            } else {
                proof {
                    assert(strings_view(stale@) =~= stale_files(idx.take(i + 1), paths, changed@));
                }
            }
            i += 1;
        }
        proof {
            assert(idx.take(i as int) =~= idx);
        }
        let ghost sv = strings_view(stale@);
        let mut k: usize = 0;
        proof {
            assert(sv.take(0) =~= Seq::<Seq<char>>::empty());
        }
        while k < stale.len()
            invariant
                k <= stale@.len(),
                sv == strings_view(stale@),
                self.wf(),
                self.index_spec() == s0.reindex_all(idx, sv.take(k as int)),
                self.overlays_spec() == s0.overlays_spec(),
                self.disk_spec() == s0.disk_spec(),
                self.web_root_view() == s0.web_root_view(),
                self.root_view() == s0.root_view(),
                self.link_support() == s0.link_support(),
            decreases stale@.len() - k,
        {
            proof {
                assert(sv.take(k + 1).drop_last() =~= sv.take(k as int));
                assert(sv.take(k + 1).last() == stale@[k as int]@);
            }
            self.reindex(&stale[k]);
            k += 1;
        }
        proof {
            assert(sv.take(k as int) =~= sv);
        }
        stale
    }

    /// Indexes the files a workspace walk found: `walked` holds, in walk
    /// order, each file's path as walked and its canonical path. Files with an
    /// indexed extension are parsed, at most `MAX_INDEXED_FILES` of them;
    /// returns whether the scan stopped at that limit.
    pub fn scan_workspace(&mut self, walked: &Vec<(String, String)>) -> (truncated: bool)
        requires
            old(self).wf(),
        ensures
            final(self).wf(),
            final(self).index_spec() == old(self).reindex_all(old(self).index_spec(), scan_selection(pairs_view(walked@))),
            truncated == (pairs_view(walked@).filter(scan_filter()).len() >= MAX_INDEXED_FILES),
            final(self).overlays_spec() == old(self).overlays_spec(),
            final(self).disk_spec() == old(self).disk_spec(),
            final(self).web_root_view() == old(self).web_root_view(),
            final(self).root_view() == old(self).root_view(),
            final(self).link_support() == old(self).link_support(),
    {
        let ghost s0 = *self;
        let ghost idx = self.index_spec();
        let ghost wv = pairs_view(walked@);
        let ghost pred = scan_filter();
        let mut count: usize = 0;
        let mut i: usize = 0;
        proof {
            assert(wv.take(0) =~= Seq::<(Seq<char>, Seq<char>)>::empty());
            assert(wv.take(0).filter(pred) =~= Seq::<(Seq<char>, Seq<char>)>::empty());
            assert(canonical_paths(wv.take(0).filter(pred)) =~= Seq::<Seq<char>>::empty());
        }
        while i < walked.len()
            invariant
                i <= walked@.len(),
                wv == pairs_view(walked@),
                pred == scan_filter(),
                s0 == *old(self),
                idx == s0.index_spec(),
                count == wv.take(i as int).filter(pred).len(),
                count < MAX_INDEXED_FILES,
                self.wf(),
                self.index_spec() == s0.reindex_all(idx, canonical_paths(wv.take(i as int).filter(pred))),
                self.overlays_spec() == s0.overlays_spec(),
                self.disk_spec() == s0.disk_spec(),
                self.web_root_view() == s0.web_root_view(),
                self.root_view() == s0.root_view(),
                self.link_support() == s0.link_support(),
            decreases walked@.len() - i,
        {
            let ghost pre = wv.take(i as int);
            proof {
                assert(wv.take(i + 1) =~= pre.push(wv[i as int]));
                pre.lemma_filter_push(wv[i as int], pred);
            }
            if indexed_extension(&walked[i].0) {
                let ghost before_f = pre.filter(pred);
                proof {
                    assert(wv.take(i + 1).filter(pred) == before_f.push(wv[i as int]));
                    assert(canonical_paths(before_f.push(wv[i as int])).drop_last() =~= canonical_paths(before_f));
                    assert(canonical_paths(before_f.push(wv[i as int])).last() == walked@[i as int].1@);
                }
                self.reindex(&walked[i].1);
                proof {
                    let f = canonical_paths(wv.take(i + 1).filter(pred));
                    assert(f.drop_last() =~= canonical_paths(before_f));
                    assert(f.last() == walked@[i as int].1@);
                    assert(self.index_spec() == s0.reindex_all(idx, f));
                }
                count += 1;
                if count >= MAX_INDEXED_FILES {
                    proof {
                        lemma_filter_prefix(wv, i + 1, pred);
                        assert(wv.take(i + 1).filter(pred) =~= wv.filter(pred).take(MAX_INDEXED_FILES as int));
                        lemma_filter_len_mono(wv, i + 1, pred);
                        if wv.filter(pred).len() == MAX_INDEXED_FILES {
                            assert(wv.filter(pred).take(MAX_INDEXED_FILES as int) =~= wv.filter(pred));
                        }
                        assert(scan_selection(wv) == canonical_paths(wv.take(i + 1).filter(pred)));
                    }
                    return true;
                }
            } else {
                proof {
                    assert(wv.take(i + 1).filter(pred) == pre.filter(pred));
                }
            }
            i += 1;
        }
        proof {
            assert(wv.take(i as int) =~= wv);
        }
        false
    }

    /// Entry `i` of the index: a path and the index of that file.
    pub fn entry(&self, i: usize) -> (r: (&String, &FileIndex))
        requires
            i < self.index_spec().len(),
        ensures
            (r.0@, r.1@) == self.index_spec()[i as int],
    {
        (&self.index[i].0, &self.index[i].1)
    }

    /// The resolved include targets of every indexed file, entry by entry.
    pub fn known_targets(&self) -> (r: Vec<String>)
        ensures
            strings_view(r@) == all_targets(self.index_spec()),
    {
        let ghost idx = self.index_spec();
        let mut r: Vec<String> = Vec::new();
        let mut k: usize = 0;
        proof {
            assert(idx.skip(0) =~= idx);
            assert(strings_view(r@) + all_targets(idx) =~= all_targets(idx));
        }
        while k < self.index.len()
            invariant
                k <= self.index@.len(),
                idx == self.index_spec(),
                all_targets(idx) == strings_view(r@) + all_targets(idx.skip(k as int)),
            decreases self.index@.len() - k,
        {
            let incs = &self.index[k].1.includes;
            let ghost iv = includes_view(incs@);
            let ghost base = strings_view(r@);
            proof {
                assert(idx.skip(k as int)[0] == idx[k as int]);
                assert(idx.skip(k as int).drop_first() =~= idx.skip(k + 1));
                assert(idx[k as int].1.includes == iv);
                assert(iv.take(0) =~= Seq::<IncludeView>::empty());
            }
            let mut j: usize = 0;
            while j < incs.len()
                invariant
                    j <= incs@.len(),
                    iv == includes_view(incs@),
                    strings_view(r@) == base + include_targets(iv.take(j as int)),
                decreases incs@.len() - j,
            {
                proof {
                    lemma_include_targets_step(iv, j as int);
                }
                match &incs[j].resolved {
                    Some(t) => {
                        let ghost before = strings_view(r@);
                        r.push(t.clone());
                        proof {
                            assert(strings_view(r@) =~= before.push(t@));
                            assert(iv[j as int].resolved == Some(t@));
                            assert(strings_view(r@) =~= base + include_targets(iv.take(j + 1)));
                        }
                    },
                    None => {
                        proof {
                            assert(iv[j as int].resolved is None);
                            assert(include_targets(iv.take(j + 1)) =~= include_targets(iv.take(j as int)));
                        }
                    },
                }
                j += 1;
            }
            proof {
                assert(iv.take(j as int) =~= iv);
                assert(all_targets(idx.skip(k as int)) == include_targets(iv) + all_targets(idx.skip(k + 1)));
                assert(all_targets(idx) =~= strings_view(r@) + all_targets(idx.skip(k + 1)));
            }
            k += 1;
        }
        proof {
            assert(idx.skip(k as int) =~= Seq::<(Seq<char>, FileIndexView)>::empty());
            assert(strings_view(r@) + Seq::<Seq<char>>::empty() =~= strings_view(r@));
        }
        r
    }

    /// Whether the client supports `LocationLink` responses.
    pub fn links_supported(&self) -> (r: bool)
        ensures
            r == self.link_support(),
    {
        self.definition_link_support
    }

    /// The workspace root.
    pub fn root_path(&self) -> (r: &String)
        ensures
            r@ == self.root_view(),
    {
        &self.root
    }

    /// Re-parses `path` from its current text and records its index.
    pub fn reindex(&mut self, path: &String)
        requires
            old(self).wf(),
        ensures
            final(self).wf(),
            final(self).index_spec() == old(self).reindexed(path@),
            final(self).overlays_spec() == old(self).overlays_spec(),
            final(self).disk_spec() == old(self).disk_spec(),
            final(self).web_root_view() == old(self).web_root_view(),
            final(self).root_view() == old(self).root_view(),
            final(self).link_support() == old(self).link_support(),
    {
        if let Some(text) = self.text_of(path) {
            let site = self.disk.site_root(path, &self.web_root);
            let idx = parse_file(text.as_str(), path.as_str(), site.as_str(), &self.disk);
            let ghost pv = path@;
            let ghost iv = idx@;
            let ghost before = self.index_spec();
            match find_key(&self.index, path) {
                Some(i) => {
                    self.index.set(i, (path.clone(), idx));
                    proof {
                        assert(first_key(keys_of(before), pv, i as int));
                        lemma_upsert_first(before, pv, iv, i as int);
                        assert(self.index_spec() =~= before.update(i as int, (pv, iv)));
                    }
                },
                None => {
                    self.index.push((path.clone(), idx));
                    proof {
                        lemma_upsert_none(before, pv, iv);
                        assert(self.index_spec() =~= before.push((pv, iv)));
                    }
                },
            }
            proof {
                lemma_upsert_unique(before, pv, iv);
            }
        }
    }
}

/// The stale files are exactly the indexed files other than `changed` with a
/// stale include, each once.
proof fn lemma_stale_files(idx: Seq<(Seq<char>, FileIndexView)>, paths: Seq<Seq<char>>, changed: Seq<char>)
    requires
        keys_of(idx).no_duplicates(),
    ensures
        stale_files(idx, paths, changed).no_duplicates(),
        forall|f: Seq<char>|
            #[trigger] stale_files(idx, paths, changed).contains(f) <==> (keys_of(idx).contains(f) && f != changed
                && has_stale_include(paths, lookup(idx, f)->0.includes)),
    decreases idx.len(),
{
    if idx.len() > 0 {
        let d = idx.drop_last();
        let e = idx.last();
        assert(idx =~= d.push(e));
        assert(keys_of(d) =~= keys_of(idx).drop_last());
        assert(keys_of(idx)[idx.len() - 1] == e.0);
        lemma_stale_files(d, paths, changed);
        let before = stale_files(d, paths, changed);
        let all = stale_files(idx, paths, changed);
        assert(!keys_of(d).contains(e.0)) by {
            if keys_of(d).contains(e.0) {
                let j = choose|j: int| 0 <= j < keys_of(d).len() && keys_of(d)[j] == e.0;
                assert(keys_of(idx)[j] == keys_of(idx)[idx.len() - 1]);
            }
        }
        assert forall|f: Seq<char>| keys_of(idx).contains(f) <==> (keys_of(d).contains(f) || f == e.0) by {
            if keys_of(idx).contains(f) && f != e.0 {
                let j = choose|j: int| 0 <= j < keys_of(idx).len() && keys_of(idx)[j] == f;
                assert(keys_of(d)[j] == f);
            }
            if keys_of(d).contains(f) {
                let j = choose|j: int| 0 <= j < keys_of(d).len() && keys_of(d)[j] == f;
                assert(keys_of(idx)[j] == f);
            }
        }
        assert forall|f: Seq<char>| keys_of(d).contains(f) implies lookup(idx, f) == lookup(d, f) by {
            lemma_lookup_push(d, e, f);
        }
        lemma_lookup_push(d, e, e.0);
        if e.0 != changed && has_stale_include(paths, e.1.includes) {
            assert(all == before.push(e.0));
            assert forall|a: int, b: int| 0 <= a < b < all.len() implies all[a] != all[b] by {
                if b == before.len() {
                    assert(before.contains(all[a]));
                }
            }
            assert forall|f: Seq<char>| #[trigger] all.contains(f) <==> before.contains(f) || f == e.0 by {
                if all.contains(f) && f != e.0 {
                    let j = choose|j: int| 0 <= j < all.len() && all[j] == f;
                    assert(before[j] == f);
                }
                if before.contains(f) {
                    let j = choose|j: int| 0 <= j < before.len() && before[j] == f;
                    assert(all[j] == f);
                }
                if f == e.0 {
                    assert(all[before.len() as int] == f);
                }
            }
        } else {
            assert(all =~= before);
        }
    }
}

/// Re-parsing distinct indexed files keeps the keys, gives each of them the
/// index its text gives (keeping the entry when there is no text), and leaves
/// the others as they were.
proof fn lemma_reindex_all(s: State, idx: Seq<(Seq<char>, FileIndexView)>, files: Seq<Seq<char>>)
    requires
        files.no_duplicates(),
        forall|f: Seq<char>| files.contains(f) ==> keys_of(idx).contains(f),
    ensures
        keys_of(s.reindex_all(idx, files)) == keys_of(idx),
        forall|f: Seq<char>|
            #[trigger] lookup(s.reindex_all(idx, files), f) == if files.contains(f) && s.text_spec(f) is Some {
                Some(s.index_for(f, s.text_spec(f)->0))
            } else {
                lookup(idx, f)
            },
    decreases files.len(),
{
    if files.len() > 0 {
        let d = files.drop_last();
        let k = files.last();
        assert forall|f: Seq<char>| d.contains(f) implies files.contains(f) by {
            let j = choose|j: int| 0 <= j < d.len() && d[j] == f;
            assert(files[j] == f);
        }
        assert(files[files.len() - 1] == k);
        assert(!d.contains(k)) by {
            if d.contains(k) {
                let j = choose|j: int| 0 <= j < d.len() && d[j] == k;
                assert(files[j] == files[files.len() - 1]);
            }
        }
        assert forall|f: Seq<char>| files.contains(f) <==> (d.contains(f) || f == k) by {
            if files.contains(f) && f != k {
                let j = choose|j: int| 0 <= j < files.len() && files[j] == f;
                assert(d[j] == f);
            }
        }
        lemma_reindex_all(s, idx, d);
        let before = s.reindex_all(idx, d);
        match s.text_spec(k) {
            Some(t) => {
                let v = s.index_for(k, t);
                lemma_upsert_same_keys(before, k, v);
                lemma_lookup_upsert(before, k, v);
                assert(s.reindex_all(idx, files) == upsert(before, k, v));
                assert forall|f: Seq<char>|
                    #[trigger] lookup(s.reindex_all(idx, files), f) == if files.contains(f) && s.text_spec(f) is Some {
                        Some(s.index_for(f, s.text_spec(f)->0))
                    } else {
                        lookup(idx, f)
                    } by {
                    if f != k {
                        lemma_lookup_upsert_other(before, k, v, f);
                        assert(lookup(before, f) == if d.contains(f) && s.text_spec(f) is Some {
                            Some(s.index_for(f, s.text_spec(f)->0))
                        } else {
                            lookup(idx, f)
                        });
                    }
                }
            },
            None => {
                assert(s.reindex_all(idx, files) == before);
                assert forall|f: Seq<char>|
                    #[trigger] lookup(s.reindex_all(idx, files), f) == if files.contains(f) && s.text_spec(f) is Some {
                        Some(s.index_for(f, s.text_spec(f)->0))
                    } else {
                        lookup(idx, f)
                    } by {
                    assert(lookup(before, f) == if d.contains(f) && s.text_spec(f) is Some {
                        Some(s.index_for(f, s.text_spec(f)->0))
                    } else {
                        lookup(idx, f)
                    });
                }
            },
        }
    }
}

proof fn lemma_filter_prefix<A>(s: Seq<A>, i: int, p: spec_fn(A) -> bool)
    requires
        0 <= i <= s.len(),
    ensures
        s.take(i).filter(p).len() <= s.filter(p).len(),
        s.filter(p).take(s.take(i).filter(p).len() as int) == s.take(i).filter(p),
    decreases s.len() - i,
{
    if i < s.len() {
        let t = s.drop_last();
        assert(s =~= t.push(s.last()));
        t.lemma_filter_push(s.last(), p);
        assert(s.take(i) =~= t.take(i));
        lemma_filter_prefix(t, i, p);
        let k = s.take(i).filter(p).len() as int;
        assert(s.filter(p).take(k) =~= t.filter(p).take(k));
    } else {
        assert(s.take(i) =~= s);
        assert(s.filter(p).take(s.filter(p).len() as int) =~= s.filter(p));
    }
}

proof fn lemma_filter_len_mono<A>(s: Seq<A>, i: int, p: spec_fn(A) -> bool)
    requires
        0 <= i <= s.len(),
    ensures
        s.take(i).filter(p).len() <= s.filter(p).len(),
{
    lemma_filter_prefix(s, i, p);
}

/// Whether a walked directory entry's name is one a scan skips.
pub fn is_skipped_name(name: &str) -> (r: bool)
    ensures
        r == is_skipped_name_spec(name@),
{
    let c = chars_of(name);
    let nm = vec!['n', 'o', 'd', 'e', '_', 'm', 'o', 'd', 'u', 'l', 'e', 's'];
    let tg = vec!['t', 'a', 'r', 'g', 'e', 't'];
    proof {
        assert(nm@ =~= seq!['n', 'o', 'd', 'e', '_', 'm', 'o', 'd', 'u', 'l', 'e', 's']);
        assert(tg@ =~= seq!['t', 'a', 'r', 'g', 'e', 't']);
    }
    (c.len() > 0 && c[0] == '.') || crate::text::chars_eq(&c, &nm) || crate::text::chars_eq(&c, &tg)
}

/// Whether `path` has one of the extensions a scan indexes.
pub fn indexed_extension(path: &String) -> (r: bool)
    ensures
        r == has_indexed_extension(path@),
{
    let p = chars_of(path.as_str());
    let c = components_exec(&p);
    let ghost cv = views_of_segments(c@);
    if c.len() == 0 {
        return false;
    }
    let name = &c[c.len() - 1];
    proof {
        assert(cv.last() == name@);
    }
    let dot_v = vec!['.'];
    let dd_v = vec!['.', '.'];
    proof {
        assert(dot_v@ =~= dot());
        assert(dd_v@ =~= dot_dot());
    }
    if crate::text::chars_eq(name, &dot_v) || crate::text::chars_eq(name, &dd_v) {
        return false;
    }
    let mut n = name.len();
    while n > 0 && name[n - 1] != '.'
        invariant
            n <= name@.len(),
            last_dot(name@, n as int) == last_dot(name@, name@.len() as int),
        decreases n,
    {
        n -= 1;
    }
    if n <= 1 {
        return false;
    }
    let k = n - 1;
    let mut ext: Vec<char> = Vec::new();
    let mut j = k + 1;
    while j < name.len()
        invariant
            k + 1 <= j <= name@.len(),
            ext@ == crate::text::ascii_lower_seq(name@.subrange(k + 1, j as int)),
        decreases name@.len() - j,
    {
        ext.push(crate::text::lower_char(name[j]));
        proof {
            assert(crate::text::ascii_lower_seq(name@.subrange(k + 1, j + 1)) =~= crate::text::ascii_lower_seq(
                name@.subrange(k + 1, j as int),
            ).push(crate::text::ascii_lower(name@[j as int])));
        }
        j += 1;
    }
    let asp = vec!['a', 's', 'p'];
    let asa = vec!['a', 's', 'a'];
    let inc = vec!['i', 'n', 'c'];
    let vbs = vec!['v', 'b', 's'];
    proof {
        assert(asp@ =~= seq!['a', 's', 'p']);
        assert(asa@ =~= seq!['a', 's', 'a']);
        assert(inc@ =~= seq!['i', 'n', 'c']);
        assert(vbs@ =~= seq!['v', 'b', 's']);
    }
    crate::text::chars_eq(&ext, &asp) || crate::text::chars_eq(&ext, &asa) || crate::text::chars_eq(&ext, &inc)
        || crate::text::chars_eq(&ext, &vbs)
}

fn contains_string(v: &Vec<String>, x: &String) -> (r: bool)
    ensures
        r == strings_view(v@).contains(x@),
{
    let mut i: usize = 0;
    while i < v.len()
        invariant
            i <= v@.len(),
            forall|j: int| 0 <= j < i ==> v@[j]@ != x@,
        decreases v@.len() - i,
    {
        if v[i] == *x {
            proof {
                assert(strings_view(v@)[i as int] == x@);
            }
            return true;
        }
        i += 1;
    }
    proof {
        if strings_view(v@).contains(x@) {
            let j = choose|j: int| 0 <= j < strings_view(v@).len() && strings_view(v@)[j] == x@;
            assert(v@[j]@ == x@);
        }
    }
    false
}

} // verus!
