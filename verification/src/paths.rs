//! Lexical path handling on `/`-separated paths: components, parent, join,
//! normalization and prefix stripping, each stated over the characters of the path.

use vstd::prelude::*;
use crate::text::{ascii_lower_seq, chars_of, push_char, string_of};

verus! {

pub open spec fn is_absolute(p: Seq<char>) -> bool {
    p.len() > 0 && p[0] == '/'
}

pub open spec fn dot() -> Seq<char> {
    seq!['.']
}

pub open spec fn dot_dot() -> Seq<char> {
    seq!['.', '.']
}

/// Completed segments and the segment being read after reading `p`; a
/// segment is a non-empty run of characters between separators.
pub open spec fn segment_state(p: Seq<char>) -> (Seq<Seq<char>>, Seq<char>)
    decreases p.len(),
{
    if p.len() == 0 {
        (Seq::empty(), Seq::empty())
    } else {
        let (done, cur) = segment_state(p.drop_last());
        if p.last() == '/' {
            (
                if cur.len() > 0 {
                    done.push(cur)
                } else {
                    done
                },
                Seq::empty(),
            )
        } else {
            (done, cur.push(p.last()))
        }
    }
}

/// The non-empty runs of characters between `/` separators.
pub open spec fn segments(p: Seq<char>) -> Seq<Seq<char>> {
    let (done, cur) = segment_state(p);
    if cur.len() > 0 {
        done.push(cur)
    } else {
        done
    }
}

pub open spec fn not_dot(s: Seq<char>) -> bool {
    s != dot()
}

pub open spec fn keep_segment() -> spec_fn(Seq<char>) -> bool {
    |s: Seq<char>| not_dot(s)
}

/// `Path::components` without the root: `.` segments are dropped, except a
/// leading one of a relative path.
pub open spec fn components(p: Seq<char>) -> Seq<Seq<char>> {
    let r = segments(p);
    if !is_absolute(p) && r.len() > 0 && r[0] == dot() {
        seq![dot()] + r.drop_first().filter(keep_segment())
    } else {
        r.filter(keep_segment())
    }
}

/// Segments joined with `/`.
pub open spec fn join_segments(s: Seq<Seq<char>>) -> Seq<char>
    decreases s.len(),
{
    if s.len() == 0 {
        Seq::empty()
    } else if s.len() == 1 {
        s[0]
    } else {
        join_segments(s.drop_last()) + seq!['/'] + s.last()
    }
}

/// A path made of a root (when `absolute`) and the given segments.
pub open spec fn render(absolute: bool, s: Seq<Seq<char>>) -> Seq<char> {
    if absolute {
        seq!['/'] + join_segments(s)
    } else {
        join_segments(s)
    }
}

/// One step of lexical normalization: `.` is skipped, `..` removes the last
/// kept segment (if any), anything else is kept.
pub open spec fn normalize_step(st: Seq<Seq<char>>, seg: Seq<char>) -> Seq<Seq<char>> {
    if seg == dot() {
        st
    } else if seg == dot_dot() {
        if st.len() > 0 {
            st.drop_last()
        } else {
            st
        }
    } else {
        st.push(seg)
    }
}

pub open spec fn normalize_segments(s: Seq<Seq<char>>) -> Seq<Seq<char>>
    decreases s.len(),
{
    if s.len() == 0 {
        Seq::empty()
    } else {
        normalize_step(normalize_segments(s.drop_last()), s.last())
    }
}

/// Lexical normalization: `.` and `..` resolved without touching the file system.
pub open spec fn normalize_spec(p: Seq<char>) -> Seq<char> {
    render(is_absolute(p), normalize_segments(segments(p)))
}

/// `Path::parent`: the path without its last component; none for an empty
/// path or a bare root.
pub open spec fn parent_spec(p: Seq<char>) -> Option<Seq<char>> {
    let c = components(p);
    if c.len() == 0 {
        None
    } else {
        Some(render(is_absolute(p), c.drop_last()))
    }
}

/// `Path::join`: an absolute `rel` replaces `base`; otherwise a separator is
/// added when `base` is non-empty and does not end with one.
pub open spec fn join_spec(base: Seq<char>, rel: Seq<char>) -> Seq<char> {
    if is_absolute(rel) {
        rel
    } else if base.len() == 0 || base.last() == '/' {
        base + rel
    } else {
        base + seq!['/'] + rel
    }
}

/// The components of `p` after those of `base`, joined with `/`, when both
/// are absolute or both relative and `base`'s components begin `p`'s. On
/// paths in normal form (no `.` or repeated separators) this is what
/// `Path::strip_prefix` gives, except for an empty `base`, which it takes as
/// a prefix of every path while here an absolute `p` needs an absolute `base`.
pub open spec fn strip_prefix_spec(p: Seq<char>, base: Seq<char>) -> Option<Seq<char>> {
    let cp = components(p);
    let cb = components(base);
    if is_absolute(p) == is_absolute(base) && cb.len() <= cp.len() && cp.subrange(
        0,
        cb.len() as int,
    ) == cb {
        Some(join_segments(cp.subrange(cb.len() as int, cp.len() as int)))
    } else {
        None
    }
}

pub open spec fn views_of_segments(v: Seq<Vec<char>>) -> Seq<Seq<char>> {
    v.map_values(|x: Vec<char>| x@)
}

/// The segments of `p`.
pub fn split_segments(p: &Vec<char>) -> (r: Vec<Vec<char>>)
    ensures
        views_of_segments(r@) == segments(p@),
{
    let mut done: Vec<Vec<char>> = Vec::new();
    let mut cur: Vec<char> = Vec::new();
    let mut i: usize = 0;
    while i < p.len()
        invariant
            i <= p@.len(),
            (views_of_segments(done@), cur@) == segment_state(p@.take(i as int)),
        decreases p@.len() - i,
    {
        let ghost pre = p@.take(i as int);
        proof {
            assert(p@.take(i + 1).drop_last() =~= pre);
            assert(p@.take(i + 1).last() == p@[i as int]);
        }
        if p[i] == '/' {
            if cur.len() > 0 {
                let seg = cur;
                done.push(seg);
                proof {
                    assert(views_of_segments(done@) =~= segment_state(pre).0.push(
                        segment_state(pre).1,
                    ));
                }
            }
            cur = Vec::new();
        } else {
            cur.push(p[i]);
        }
        i += 1;
    }
    proof {
        assert(p@.take(p@.len() as int) =~= p@);
    }
    if cur.len() > 0 {
        done.push(cur);
        proof {
            assert(views_of_segments(done@) =~= segments(p@));
        }
    }
    done
}

fn is_dot(s: &Vec<char>) -> (r: bool)
    ensures
        r == (s@ == dot()),
{
    let r = s.len() == 1 && s[0] == '.';
    proof {
        if r {
            assert(s@ =~= dot());
        }
    }
    r
}

fn is_dot_dot(s: &Vec<char>) -> (r: bool)
    ensures
        r == (s@ == dot_dot()),
{
    let r = s.len() == 2 && s[0] == '.' && s[1] == '.';
    proof {
        if r {
            assert(s@ =~= dot_dot());
        }
    }
    r
}

/// Writes `render(absolute, segs)`.
pub fn render_segments(absolute: bool, segs: &Vec<Vec<char>>) -> (r: Vec<char>)
    ensures
        r@ == render(absolute, views_of_segments(segs@)),
{
    let mut r: Vec<char> = Vec::new();
    if absolute {
        r.push('/');
    }
    let ghost base = r@;
    let mut k: usize = 0;
    while k < segs.len()
        invariant
            k <= segs@.len(),
            base == (if absolute {
                seq!['/']
            } else {
                Seq::<char>::empty()
            }),
            r@ == base + join_segments(views_of_segments(segs@.take(k as int))),
        decreases segs@.len() - k,
    {
        let ghost before = r@;
        let ghost vs = views_of_segments(segs@.take(k as int + 1));
        proof {
            assert(vs.drop_last() =~= views_of_segments(segs@.take(k as int)));
            assert(vs.last() == segs@[k as int]@);
        }
        if k > 0 {
            r.push('/');
        }
        let seg = &segs[k];
        let mut j: usize = 0;
        let ghost mid = r@;
        while j < seg.len()
            invariant
                j <= seg@.len(),
                r@ == mid + seg@.take(j as int),
            decreases seg@.len() - j,
        {
            r.push(seg[j]);
            proof {
                assert(seg@.take(j + 1) =~= seg@.take(j as int).push(seg@[j as int]));
            }
            j += 1;
        }
        proof {
            assert(seg@.take(seg@.len() as int) =~= seg@);
            if k == 0 {
                assert(vs.len() == 1);
                assert(join_segments(views_of_segments(segs@.take(0))) =~= Seq::<char>::empty());
                assert(r@ =~= base + join_segments(vs));
            } else {
                assert(r@ =~= base + join_segments(vs));
            }
        }
        k += 1;
    }
    proof {
        assert(segs@.take(segs@.len() as int) =~= segs@);
    }
    r
}

/// Lexical normalization of the characters of a path.
pub fn normalize_chars(p: &Vec<char>) -> (r: Vec<char>)
    ensures
        r@ == normalize_spec(p@),
{
    let segs = split_segments(p);
    let mut st: Vec<Vec<char>> = Vec::new();
    let mut k: usize = 0;
    while k < segs.len()
        invariant
            k <= segs@.len(),
            views_of_segments(st@) == normalize_segments(views_of_segments(segs@).take(k as int)),
        decreases segs@.len() - k,
    {
        let ghost prev = views_of_segments(st@);
        proof {
            assert(views_of_segments(segs@).take(k + 1).drop_last() =~= views_of_segments(
                segs@,
            ).take(k as int));
            assert(views_of_segments(segs@).take(k + 1).last() == segs@[k as int]@);
        }
        let seg = &segs[k];
        if is_dot(seg) {
        } else if is_dot_dot(seg) {
            if st.len() > 0 {
                st.pop();
                proof {
                    assert(views_of_segments(st@) =~= prev.drop_last());
                }
            }
        } else {
            let copy = copy_chars(seg);
            st.push(copy);
            proof {
                assert(views_of_segments(st@) =~= prev.push(seg@));
            }
        }
        k += 1;
    }
    proof {
        assert(views_of_segments(segs@).take(segs@.len() as int) =~= views_of_segments(segs@));
    }
    let absolute = p.len() > 0 && p[0] == '/';
    render_segments(absolute, &st)
}

pub fn copy_chars(v: &Vec<char>) -> (r: Vec<char>)
    ensures
        r@ == v@,
{
    let mut r: Vec<char> = Vec::new();
    let mut i: usize = 0;
    while i < v.len()
        invariant
            i <= v@.len(),
            r@ == v@.take(i as int),
        decreases v@.len() - i,
    {
        r.push(v[i]);
        proof {
            assert(v@.take(i + 1) =~= v@.take(i as int).push(v@[i as int]));
        }
        i += 1;
    }
    proof {
        assert(v@.take(v@.len() as int) =~= v@);
    }
    r
}

pub fn string_from_chars(v: &Vec<char>) -> (r: String)
    ensures
        r@ == v@,
{
    let r = string_of(v, 0, v.len());
    proof {
        assert(v@.subrange(0, v@.len() as int) =~= v@);
    }
    r
}

/// Lexically normalize a path (resolve `.` and `..` without touching the filesystem).
pub fn normalize(path: &str) -> (r: String)
    ensures
        r@ == normalize_spec(path@),
{
    let p = chars_of(path);
    let n = normalize_chars(&p);
    string_from_chars(&n)
}

/// The components of `p`, in exec form.
pub fn components_exec(p: &Vec<char>) -> (r: Vec<Vec<char>>)
    ensures
        views_of_segments(r@) == components(p@),
{
    let segs = split_segments(p);
    let ghost sv = views_of_segments(segs@);
    let absolute = p.len() > 0 && p[0] == '/';
    let mut r: Vec<Vec<char>> = Vec::new();
    let mut k: usize = 0;
    let keep_first = !absolute && segs.len() > 0 && is_dot(&segs[0]);
    if keep_first {
        r.push(vec!['.']);
        k = 1;
        proof {
            assert(r@[0]@ =~= dot());
        }
    }
    let ghost head: Seq<Seq<char>> = if keep_first {
        seq![dot()]
    } else {
        Seq::empty()
    };
    let ghost start: int = k as int;
    proof {
        assert(views_of_segments(r@) =~= head);
    }
    while k < segs.len()
        invariant
            start <= k <= segs@.len(),
            sv == views_of_segments(segs@),
            start == (if keep_first {
                1int
            } else {
                0int
            }),
            views_of_segments(r@) == head + sv.subrange(start, k as int).filter(keep_segment()),
        decreases segs@.len() - k,
    {
        let ghost prev = sv.subrange(start, k as int);
        proof {
            assert(sv.subrange(start, k + 1) =~= prev.push(sv[k as int]));
            prev.lemma_filter_push(sv[k as int], keep_segment());
        }
        if !is_dot(&segs[k]) {
            let c = copy_chars(&segs[k]);
            let ghost old_r = r@;
            r.push(c);
            proof {
                assert(views_of_segments(r@) =~= views_of_segments(old_r).push(c@));
                assert(views_of_segments(r@) =~= head + sv.subrange(start, k + 1).filter(keep_segment()));
            }
        } else {
            proof {
                assert(views_of_segments(r@) =~= head + sv.subrange(start, k + 1).filter(keep_segment()));
            }
        }
        k += 1;
    }
    proof {
        if keep_first {
            assert(sv.subrange(1, sv.len() as int) =~= sv.drop_first());
            assert(sv[0] == dot());
            assert(views_of_segments(r@) =~= components(p@));
        } else {
            assert(sv.subrange(0, sv.len() as int) =~= sv);
            assert(head + sv.filter(keep_segment()) =~= sv.filter(keep_segment()));
        }
    }
    r
}

/// `Path::parent` on the characters of a path.
pub fn parent_chars(p: &Vec<char>) -> (r: Option<Vec<char>>)
    ensures
        r matches Some(v) ==> parent_spec(p@) == Some(v@),
        r is None ==> parent_spec(p@) is None,
{
    let mut c = components_exec(p);
    if c.len() == 0 {
        return None;
    }
    let ghost cv = views_of_segments(c@);
    c.pop();
    proof {
        assert(views_of_segments(c@) =~= cv.drop_last());
    }
    let absolute = p.len() > 0 && p[0] == '/';
    Some(render_segments(absolute, &c))
}

/// `Path::join` on the characters of two paths.
pub fn join_chars(base: &Vec<char>, rel: &Vec<char>) -> (r: Vec<char>)
    ensures
        r@ == join_spec(base@, rel@),
{
    if rel.len() > 0 && rel[0] == '/' {
        return copy_chars(rel);
    }
    let mut r = copy_chars(base);
    if base.len() > 0 && base[base.len() - 1] != '/' {
        r.push('/');
    }
    let ghost mid = r@;
    let mut i: usize = 0;
    while i < rel.len()
        invariant
            i <= rel@.len(),
            r@ == mid + rel@.take(i as int),
        decreases rel@.len() - i,
    {
        r.push(rel[i]);
        proof {
            assert(rel@.take(i + 1) =~= rel@.take(i as int).push(rel@[i as int]));
        }
        i += 1;
    }
    proof {
        assert(rel@.take(rel@.len() as int) =~= rel@);
        if base@.len() > 0 && base@.last() != '/' {
            assert(r@ =~= base@ + seq!['/'] + rel@);
        } else {
            assert(r@ =~= base@ + rel@);
        }
    }
    r
}

/// `strip_prefix_spec` on the characters of two paths.
pub fn strip_prefix_chars(p: &Vec<char>, base: &Vec<char>) -> (r: Option<Vec<char>>)
    ensures
        r matches Some(v) ==> strip_prefix_spec(p@, base@) == Some(v@),
        r is None ==> strip_prefix_spec(p@, base@) is None,
{
    let cp = components_exec(p);
    let cb = components_exec(base);
    let ghost vp = views_of_segments(cp@);
    let ghost vb = views_of_segments(cb@);
    let abs_p = p.len() > 0 && p[0] == '/';
    let abs_b = base.len() > 0 && base[0] == '/';
    proof {
        assert(abs_p == is_absolute(p@));
        assert(abs_b == is_absolute(base@));
        assert(vp.len() == cp@.len());
        assert(vb.len() == cb@.len());
    }
    if abs_p != abs_b || cb.len() > cp.len() {
        proof {
            assert(components(p@) == vp);
            assert(components(base@) == vb);
            assert(!(vb.len() <= vp.len()) || is_absolute(p@) != is_absolute(base@));
        }
        return None;
    }
    let mut k: usize = 0;
    while k < cb.len()
        invariant
            k <= cb@.len() <= cp@.len(),
            vp == views_of_segments(cp@),
            vb == views_of_segments(cb@),
            components(p@) == vp,
            components(base@) == vb,
            is_absolute(p@) == is_absolute(base@),
            forall|j: int| 0 <= j < k ==> #[trigger] vp[j] == vb[j],
        decreases cb@.len() - k,
    {
        if !crate::text::chars_eq(&cp[k], &cb[k]) {
            proof {
                assert(vp.subrange(0, vb.len() as int)[k as int] != vb[k as int]);
                assert(vp.subrange(0, vb.len() as int) != vb);
            }
            return None;
        }
        k += 1;
    }
    proof {
        assert(vp.subrange(0, vb.len() as int) =~= vb);
    }
    let mut rest: Vec<Vec<char>> = Vec::new();
    let mut j: usize = cb.len();
    while j < cp.len()
        invariant
            cb@.len() <= j <= cp@.len(),
            vp == views_of_segments(cp@),
            views_of_segments(rest@) == vp.subrange(cb@.len() as int, j as int),
        decreases cp@.len() - j,
    {
        let c = copy_chars(&cp[j]);
        let ghost old_rest = rest@;
        rest.push(c);
        proof {
            assert(views_of_segments(rest@) =~= views_of_segments(old_rest).push(c@));
            assert(views_of_segments(rest@) =~= vp.subrange(cb@.len() as int, j + 1));
        }
        j += 1;
    }
    let r = render_segments(false, &rest);
    Some(r)
}

/// A segment as normalization leaves it: non-empty, without a separator, and
/// neither `.` nor `..`.
pub open spec fn plain_segment(x: Seq<char>) -> bool {
    &&& x.len() > 0
    &&& !x.contains('/')
    &&& x != dot()
    &&& x != dot_dot()
}

proof fn lemma_segment_state_parts(p: Seq<char>)
    ensures
        forall|i: int|
            0 <= i < segment_state(p).0.len() ==> (#[trigger] segment_state(p).0[i]).len() > 0
                && !segment_state(p).0[i].contains('/'),
        !segment_state(p).1.contains('/'),
    decreases p.len(),
{
    if p.len() > 0 {
        lemma_segment_state_parts(p.drop_last());
        let (done, cur) = segment_state(p.drop_last());
        if p.last() != '/' {
            assert forall|c: char| cur.push(p.last()).contains(c) implies c != '/' by {
                let k = choose|k: int| 0 <= k < cur.push(p.last()).len() && cur.push(p.last())[k] == c;
                if k < cur.len() {
                    assert(cur.contains(cur[k]));
                }
            }
        }
    }
}

proof fn lemma_segments_parts(p: Seq<char>)
    ensures
        forall|i: int|
            0 <= i < segments(p).len() ==> (#[trigger] segments(p)[i]).len() > 0 && !segments(p)[i].contains('/'),
{
    lemma_segment_state_parts(p);
}

proof fn lemma_normalize_segments_plain(s: Seq<Seq<char>>)
    requires
        forall|i: int| 0 <= i < s.len() ==> (#[trigger] s[i]).len() > 0 && !s[i].contains('/'),
    ensures
        forall|i: int| 0 <= i < normalize_segments(s).len() ==> plain_segment(#[trigger] normalize_segments(s)[i]),
    decreases s.len(),
{
    if s.len() > 0 {
        let d = s.drop_last();
        assert forall|i: int| 0 <= i < d.len() implies (#[trigger] d[i]).len() > 0 && !d[i].contains('/') by {
            assert(d[i] == s[i]);
        }
        lemma_normalize_segments_plain(d);
        assert(s.last() == s[s.len() - 1]);
        let st = normalize_segments(d);
        let r = normalize_segments(s);
        assert(r == normalize_step(st, s.last()));
        assert forall|i: int| 0 <= i < r.len() implies plain_segment(#[trigger] r[i]) by {
            if i < st.len() {
                assert(r[i] == st[i]);
            } else {
                assert(r[i] == s.last());
            }
        }
    }
}

proof fn lemma_normalize_segments_fixed(s: Seq<Seq<char>>)
    requires
        forall|i: int| 0 <= i < s.len() ==> plain_segment(#[trigger] s[i]),
    ensures
        normalize_segments(s) == s,
    decreases s.len(),
{
    if s.len() > 0 {
        let d = s.drop_last();
        assert forall|i: int| 0 <= i < d.len() implies plain_segment(#[trigger] d[i]) by {
            assert(d[i] == s[i]);
        }
        lemma_normalize_segments_fixed(d);
        assert(plain_segment(s[s.len() - 1]));
        assert(d.push(s.last()) =~= s);
    }
}

proof fn lemma_segment_state_append(q: Seq<char>, w: Seq<char>)
    requires
        !w.contains('/'),
    ensures
        segment_state(q + w) == (segment_state(q).0, segment_state(q).1 + w),
    decreases w.len(),
{
    if w.len() == 0 {
        assert(q + w =~= q);
        assert(segment_state(q).1 + w =~= segment_state(q).1);
    } else {
        let wd = w.drop_last();
        assert(!wd.contains('/')) by {
            assert forall|c: char| wd.contains(c) implies c != '/' by {
                let k = choose|k: int| 0 <= k < wd.len() && wd[k] == c;
                assert(w[k] == wd[k]);
                assert(w.contains(w[k]));
            }
        }
        lemma_segment_state_append(q, wd);
        assert((q + w).drop_last() =~= q + wd);
        assert((q + w).last() == w.last());
        assert(w.contains(w[w.len() - 1]));
        assert((segment_state(q).1 + wd).push(w.last()) =~= segment_state(q).1 + w);
    }
}

pub proof fn lemma_segments_join(r: Seq<char>, s: Seq<Seq<char>>)
    requires
        r == Seq::<char>::empty() || r == seq!['/'],
        forall|i: int| 0 <= i < s.len() ==> (#[trigger] s[i]).len() > 0 && !s[i].contains('/'),
    ensures
        segments(r + join_segments(s)) == s,
    decreases s.len(),
{
    if s.len() == 0 {
        assert(r + join_segments(s) =~= r);
        reveal_with_fuel(segment_state, 2);
    } else if s.len() == 1 {
        lemma_segment_state_append(r, s[0]);
        reveal_with_fuel(segment_state, 2);
        assert(segment_state(r).1 =~= Seq::<char>::empty());
        assert(Seq::<char>::empty() + s[0] =~= s[0]);
        assert(seq![s[0]] =~= s);
    } else {
        let d = s.drop_last();
        assert forall|i: int| 0 <= i < d.len() implies (#[trigger] d[i]).len() > 0 && !d[i].contains('/') by {
            assert(d[i] == s[i]);
        }
        lemma_segments_join(r, d);
        let q = r + join_segments(d) + seq!['/'];
        assert(r + join_segments(s) =~= q + s.last());
        assert(s.last() == s[s.len() - 1]);
        lemma_segment_state_append(q, s.last());
        assert(q.drop_last() =~= r + join_segments(d));
        assert(segment_state(q).1 =~= Seq::<char>::empty());
        assert(Seq::<char>::empty() + s.last() =~= s.last());
        assert(d.push(s.last()) =~= s);
    }
}

proof fn lemma_join_first(s: Seq<Seq<char>>)
    requires
        s.len() > 0,
        forall|i: int| 0 <= i < s.len() ==> (#[trigger] s[i]).len() > 0,
    ensures
        join_segments(s).len() > 0,
        join_segments(s)[0] == s[0][0],
    decreases s.len(),
{
    if s.len() > 1 {
        let d = s.drop_last();
        assert forall|i: int| 0 <= i < d.len() implies (#[trigger] d[i]).len() > 0 by {
            assert(d[i] == s[i]);
        }
        lemma_join_first(d);
    }
}

/// Normalizing a normalized path changes nothing.
pub proof fn law_normalize_idempotent(p: Seq<char>)
    ensures
        normalize_spec(normalize_spec(p)) == normalize_spec(p),
{
    let abs = is_absolute(p);
    let n = normalize_segments(segments(p));
    lemma_segments_parts(p);
    lemma_normalize_segments_plain(segments(p));
    assert forall|i: int| 0 <= i < n.len() implies (#[trigger] n[i]).len() > 0 && !n[i].contains('/') by {
        assert(plain_segment(n[i]));
    }
    let q = normalize_spec(p);
    if abs {
        lemma_segments_join(seq!['/'], n);
        assert(is_absolute(q));
    } else {
        lemma_segments_join(Seq::<char>::empty(), n);
        assert(Seq::<char>::empty() + join_segments(n) =~= join_segments(n));
        if n.len() > 0 {
            lemma_join_first(n);
            assert(plain_segment(n[0]));
            assert(n[0].contains(n[0][0]));
        }
        assert(!is_absolute(q));
    }
    lemma_normalize_segments_fixed(n);
}

proof fn lemma_lower_join(s: Seq<Seq<char>>)
    ensures
        ascii_lower_seq(join_segments(s)) == join_segments(s.map_values(|x: Seq<char>| ascii_lower_seq(x))),
    decreases s.len(),
{
    let f = |x: Seq<char>| ascii_lower_seq(x);
    if s.len() == 0 {
        assert(ascii_lower_seq(Seq::<char>::empty()) =~= Seq::<char>::empty());
    } else if s.len() == 1 {
    } else {
        let d = s.drop_last();
        lemma_lower_join(d);
        assert(s.map_values(f).drop_last() =~= d.map_values(f));
        assert(s.map_values(f).last() == ascii_lower_seq(s.last()));
        assert(ascii_lower_seq(join_segments(d) + seq!['/'] + s.last()) =~= ascii_lower_seq(join_segments(d)) + seq!['/']
            + ascii_lower_seq(s.last()));
    }
}

/// Two paths in normal form, both absolute or both relative, whose
/// components correspond one to one ignoring ASCII case, are equal ignoring
/// ASCII case.
pub proof fn lemma_normal_paths_match(q: Seq<char>, n: Seq<char>)
    requires
        q == normalize_spec(q),
        n == normalize_spec(n),
        is_absolute(q) == is_absolute(n),
        segments(q).len() == segments(n).len(),
        forall|i: int| 0 <= i < segments(q).len() ==> ascii_lower_seq(#[trigger] segments(q)[i]) == ascii_lower_seq(segments(n)[i]),
    ensures
        ascii_lower_seq(q) == ascii_lower_seq(n),
{
    let f = |x: Seq<char>| ascii_lower_seq(x);
    let nq = normalize_segments(segments(q));
    let nn = normalize_segments(segments(n));
    lemma_segments_parts(q);
    lemma_normalize_segments_plain(segments(q));
    lemma_segments_parts(n);
    lemma_normalize_segments_plain(segments(n));
    assert forall|i: int| 0 <= i < nq.len() implies (#[trigger] nq[i]).len() > 0 && !nq[i].contains('/') by {
        assert(plain_segment(nq[i]));
    }
    assert forall|i: int| 0 <= i < nn.len() implies (#[trigger] nn[i]).len() > 0 && !nn[i].contains('/') by {
        assert(plain_segment(nn[i]));
    }
    let r: Seq<char> = if is_absolute(q) { seq!['/'] } else { Seq::empty() };
    lemma_segments_join(r, nq);
    lemma_segments_join(r, nn);
    assert(render(is_absolute(q), nq) =~= r + join_segments(nq));
    assert(render(is_absolute(n), nn) =~= r + join_segments(nn));
    assert(segments(q) == nq);
    assert(segments(n) == nn);
    assert(nq.map_values(f) =~= nn.map_values(f));
    lemma_lower_join(nq);
    lemma_lower_join(nn);
    assert(ascii_lower_seq(r + join_segments(nq)) =~= ascii_lower_seq(r) + ascii_lower_seq(join_segments(nq)));
    assert(ascii_lower_seq(r + join_segments(nn)) =~= ascii_lower_seq(r) + ascii_lower_seq(join_segments(nn)));
}

proof fn lemma_filter_keeps_plain(s: Seq<Seq<char>>)
    requires
        forall|i: int| 0 <= i < s.len() ==> (#[trigger] s[i]) != dot(),
    ensures
        s.filter(keep_segment()) == s,
    decreases s.len(),
{
    reveal(Seq::filter);
    if s.len() > 0 {
        let d = s.drop_last();
        assert forall|i: int| 0 <= i < d.len() implies (#[trigger] d[i]) != dot() by {
            assert(d[i] == s[i]);
        }
        lemma_filter_keeps_plain(d);
        assert(s[s.len() - 1] != dot());
        assert(d.push(s.last()) =~= s);
    }
}

/// `components` of a path whose segments are neither `.` nor `..` are its
/// segments.
proof fn lemma_components_of_plain(p: Seq<char>)
    requires
        forall|i: int| 0 <= i < segments(p).len() ==> (#[trigger] segments(p)[i]) != dot(),
    ensures
        components(p) == segments(p),
{
    lemma_filter_keeps_plain(segments(p));
}

/// Normalization leaves no `.` or `..` component, and a path none of whose
/// segments is `.` or `..` normalizes to its components under its own root:
/// only repeated and trailing separators go.
pub proof fn law_normalize_components(p: Seq<char>)
    ensures
        forall|i: int|
            0 <= i < components(normalize_spec(p)).len() ==> #[trigger] components(normalize_spec(p))[i] != dot()
                && components(normalize_spec(p))[i] != dot_dot(),
        (forall|i: int| 0 <= i < segments(p).len() ==> #[trigger] segments(p)[i] != dot() && segments(p)[i] != dot_dot())
            ==> components(p) == segments(p) && normalize_spec(p) == render(is_absolute(p), components(p)),
{
    let n = normalize_segments(segments(p));
    lemma_segments_parts(p);
    lemma_normalize_segments_plain(segments(p));
    assert forall|i: int| 0 <= i < n.len() implies (#[trigger] n[i]).len() > 0 && !n[i].contains('/') by {
        assert(plain_segment(n[i]));
    }
    let r: Seq<char> = if is_absolute(p) { seq!['/'] } else { Seq::empty() };
    lemma_segments_join(r, n);
    assert(render(is_absolute(p), n) =~= r + join_segments(n));
    let q = normalize_spec(p);
    assert(segments(q) == n);
    assert forall|i: int| 0 <= i < segments(q).len() implies (#[trigger] segments(q)[i]) != dot() by {
        assert(plain_segment(n[i]));
    }
    lemma_components_of_plain(q);
    assert forall|i: int| 0 <= i < components(q).len() implies #[trigger] components(q)[i] != dot() && components(q)[i]
        != dot_dot() by {
        assert(plain_segment(n[i]));
    }
    if forall|i: int| 0 <= i < segments(p).len() ==> #[trigger] segments(p)[i] != dot() && segments(p)[i] != dot_dot() {
        assert forall|i: int| 0 <= i < segments(p).len() implies plain_segment(#[trigger] segments(p)[i]) by {}
        lemma_normalize_segments_fixed(segments(p));
        lemma_components_of_plain(p);
    }
}

} // verus!
