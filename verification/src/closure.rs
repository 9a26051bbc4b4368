//! The include graph of an index: each file's resolved include targets, and
//! the breadth-first order in which the files reachable from one are visited.

use vstd::prelude::*;
use crate::files::lookup;
use crate::parse::{FileIndexView, IncludeView, SymbolView};
use crate::text::eq_ignore_ascii_case;

verus! {

/// The directives of `incs` that resolve to `target`, each with `file`.
pub open spec fn includes_to(file: Seq<char>, incs: Seq<IncludeView>, target: Seq<char>) -> Seq<(Seq<char>, IncludeView)>
    decreases incs.len(),
{
    if incs.len() == 0 {
        Seq::empty()
    } else {
        includes_to(file, incs.drop_last(), target) + if incs.last().resolved == Some(target) {
            seq![(file, incs.last())]
        } else {
            Seq::empty()
        }
    }
}

/// All include directives across the index that resolve to `target`, in index order.
pub open spec fn includers_spec(idx: Seq<(Seq<char>, FileIndexView)>, target: Seq<char>) -> Seq<(Seq<char>, IncludeView)>
    decreases idx.len(),
{
    if idx.len() == 0 {
        Seq::empty()
    } else {
        includers_spec(idx.drop_last(), target) + includes_to(idx.last().0, idx.last().1.includes, target)
    }
}

/// The definitions among `syms` named `name` (ignoring ASCII case), each with `file`.
pub open spec fn named(file: Seq<char>, syms: Seq<SymbolView>, name: Seq<char>) -> Seq<(Seq<char>, SymbolView)>
    decreases syms.len(),
{
    if syms.len() == 0 {
        Seq::empty()
    } else {
        named(file, syms.drop_last(), name) + if eq_ignore_ascii_case(syms.last().name, name) {
            seq![(file, syms.last())]
        } else {
            Seq::empty()
        }
    }
}

/// The definitions named `name` in the indexed files among `files`, in that order.
pub open spec fn definitions_in(idx: Seq<(Seq<char>, FileIndexView)>, files: Seq<Seq<char>>, name: Seq<char>) -> Seq<(Seq<char>, SymbolView)>
    decreases files.len(),
{
    if files.len() == 0 {
        Seq::empty()
    } else {
        definitions_in(idx, files.drop_last(), name) + match lookup(idx, files.last()) {
            Some(fi) => named(files.last(), fi.symbols, name),
            None => Seq::empty(),
        }
    }
}

/// The definitions named `name` in every entry of the index, in index order.
pub open spec fn definitions_everywhere(idx: Seq<(Seq<char>, FileIndexView)>, name: Seq<char>) -> Seq<(Seq<char>, SymbolView)>
    decreases idx.len(),
{
    if idx.len() == 0 {
        Seq::empty()
    } else {
        definitions_everywhere(idx.drop_last(), name) + named(idx.last().0, idx.last().1.symbols, name)
    }
}

/// Definitions of `name` in the include closure of `from`; when there are
/// none, those in the whole index.
pub open spec fn find_definitions_spec(idx: Seq<(Seq<char>, FileIndexView)>, from: Seq<char>, name: Seq<char>) -> Seq<(Seq<char>, SymbolView)> {
    let near = definitions_in(idx, include_closure_spec(idx, from), name);
    if near.len() > 0 {
        near
    } else {
        definitions_everywhere(idx, name)
    }
}

/// The resolved targets of `incs`, in order (unresolved directives skipped).
pub open spec fn include_targets(incs: Seq<IncludeView>) -> Seq<Seq<char>>
    decreases incs.len(),
{
    if incs.len() == 0 {
        Seq::empty()
    } else {
        include_targets(incs.drop_last()) + match incs.last().resolved {
            Some(t) => seq![t],
            None => Seq::<Seq<char>>::empty(),
        }
    }
}

/// The files that `f` includes, according to the index.
pub open spec fn successors(idx: Seq<(Seq<char>, FileIndexView)>, f: Seq<char>) -> Seq<Seq<char>> {
    match lookup(idx, f) {
        Some(fi) => include_targets(fi.includes),
        None => Seq::empty(),
    }
}

/// The resolved targets of every entry of the index, entry by entry.
pub open spec fn all_targets(idx: Seq<(Seq<char>, FileIndexView)>) -> Seq<Seq<char>>
    decreases idx.len(),
{
    if idx.len() == 0 {
        Seq::empty()
    } else {
        include_targets(idx[0].1.includes) + all_targets(idx.drop_first())
    }
}

/// One step of the search: take the first queued file; unless already
/// visited, visit it and queue the files it includes.
pub open spec fn bfs_step(
    idx: Seq<(Seq<char>, FileIndexView)>,
    queue: Seq<Seq<char>>,
    order: Seq<Seq<char>>,
) -> (Seq<Seq<char>>, Seq<Seq<char>>) {
    let f = queue[0];
    if order.contains(f) {
        (queue.drop_first(), order)
    } else {
        (queue.drop_first() + successors(idx, f), order.push(f))
    }
}

/// The visit order after at most `fuel` steps.
pub open spec fn bfs(
    idx: Seq<(Seq<char>, FileIndexView)>,
    queue: Seq<Seq<char>>,
    order: Seq<Seq<char>>,
    fuel: nat,
) -> Seq<Seq<char>>
    decreases fuel,
{
    if fuel == 0 || queue.len() == 0 {
        order
    } else {
        let (q, o) = bfs_step(idx, queue, order);
        bfs(idx, q, o, (fuel - 1) as nat)
    }
}

/// More steps than the search ever takes: each visited file is `start` or a
/// target, and each visit queues at most all targets.
pub open spec fn closure_bound(idx: Seq<(Seq<char>, FileIndexView)>) -> nat {
    let t = all_targets(idx).len();
    2 + (1 + t) * t
}

/// Files reachable from `start` by following resolved includes, breadth-first,
/// `start` itself first.
pub open spec fn include_closure_spec(idx: Seq<(Seq<char>, FileIndexView)>, start: Seq<char>) -> Seq<Seq<char>> {
    bfs(idx, seq![start], Seq::empty(), closure_bound(idx))
}

pub proof fn lemma_include_targets_step(incs: Seq<IncludeView>, j: int)
    requires
        0 <= j < incs.len(),
    ensures
        include_targets(incs.take(j + 1)) == include_targets(incs.take(j)) + match incs[j].resolved {
            Some(t) => seq![t],
            None => Seq::<Seq<char>>::empty(),
        },
{
    assert(incs.take(j + 1).drop_last() =~= incs.take(j));
}

/// The files a file includes are among all targets, and no more numerous.
pub proof fn lemma_successors_in_all(idx: Seq<(Seq<char>, FileIndexView)>, f: Seq<char>)
    ensures
        successors(idx, f).len() <= all_targets(idx).len(),
        forall|x: Seq<char>| successors(idx, f).contains(x) ==> all_targets(idx).contains(x),
    decreases idx.len(),
{
    if idx.len() > 0 {
        let head = include_targets(idx[0].1.includes);
        let rest = all_targets(idx.drop_first());
        assert(all_targets(idx) == head + rest);
        if idx[0].0 == f {
            assert forall|x: Seq<char>| successors(idx, f).contains(x) implies all_targets(idx).contains(x) by {
                let i = choose|i: int| 0 <= i < head.len() && head[i] == x;
                assert((head + rest)[i] == x);
            }
        } else {
            lemma_successors_in_all(idx.drop_first(), f);
            assert(successors(idx, f) == successors(idx.drop_first(), f));
            assert forall|x: Seq<char>| successors(idx, f).contains(x) implies all_targets(idx).contains(x) by {
                assert(rest.contains(x));
                let i = choose|i: int| 0 <= i < rest.len() && rest[i] == x;
                assert((head + rest)[head.len() + i] == x);
            }
        }
    }
}

/// A sequence without repeats, all of whose elements are in `u`, is no longer than `u`.
pub proof fn lemma_distinct_subseq_len(s: Seq<Seq<char>>, u: Seq<Seq<char>>)
    requires
        s.no_duplicates(),
        forall|x: Seq<char>| s.contains(x) ==> u.contains(x),
    ensures
        s.len() <= u.len(),
{
    s.unique_seq_to_set();
    u.lemma_cardinality_of_set();
    vstd::seq_lib::seq_to_set_is_finite(u);
    assert(s.to_set().subset_of(u.to_set()));
    vstd::set_lib::lemma_len_subset(s.to_set(), u.to_set());
}

/// Every file that a file of `from` includes is in `within`.
pub open spec fn successors_within(
    idx: Seq<(Seq<char>, FileIndexView)>,
    from: Seq<Seq<char>>,
    within: Seq<Seq<char>>,
) -> bool {
    forall|m: int, x: Seq<char>|
        0 <= m < from.len() && #[trigger] successors(idx, from[m]).contains(x) ==> within.contains(x)
}

/// Some file of `order` includes `x`.
pub open spec fn included_by_some(idx: Seq<(Seq<char>, FileIndexView)>, order: Seq<Seq<char>>, x: Seq<char>) -> bool {
    exists|m: int| 0 <= m < order.len() && #[trigger] successors(idx, order[m]).contains(x)
}

/// Each file of `queue` but the first is included by some file of `order`.
pub open spec fn queued_by(idx: Seq<(Seq<char>, FileIndexView)>, order: Seq<Seq<char>>, queue: Seq<Seq<char>>) -> bool {
    forall|k: int| 0 < k < queue.len() ==> included_by_some(idx, order, #[trigger] queue[k])
}

/// Each file of `order` but the first is included by a file before it.
pub open spec fn included_by_earlier(idx: Seq<(Seq<char>, FileIndexView)>, order: Seq<Seq<char>>) -> bool {
    forall|p: int| 0 < p < order.len() ==> included_by_some(idx, order.take(p), #[trigger] order[p])
}

proof fn lemma_visit_popped(order: Seq<Seq<char>>, queue: Seq<Seq<char>>, head: int, succ: Seq<Seq<char>>)
    requires
        0 < head <= queue.len(),
        forall|k: int| 0 <= k < head - 1 ==> #[trigger] order.contains(queue[k]),
    ensures
        forall|k: int| 0 <= k < head ==> #[trigger] order.push(queue[head - 1]).contains((queue + succ)[k]),
{
    let order2 = order.push(queue[head - 1]);
    let queue2 = queue + succ;
    assert(order2[order.len() as int] == queue[head - 1]);
    assert forall|k: int| 0 <= k < head implies #[trigger] order2.contains(queue2[k]) by {
        assert(queue2[k] == queue[k]);
        if k < head - 1 {
            assert(order.contains(queue[k]));
            let i = choose|i: int| 0 <= i < order.len() && order[i] == queue[k];
            assert(order2[i] == queue[k]);
        }
    }
}

proof fn lemma_visit_within(
    idx: Seq<(Seq<char>, FileIndexView)>,
    order: Seq<Seq<char>>,
    queue: Seq<Seq<char>>,
    f: Seq<char>,
)
    requires
        successors_within(idx, order, queue),
    ensures
        successors_within(idx, order.push(f), queue + successors(idx, f)),
{
    let order2 = order.push(f);
    let succ = successors(idx, f);
    let queue2 = queue + succ;
    let n = order.len() as int;
    assert forall|m: int, x: Seq<char>| 0 <= m < order2.len() && #[trigger] successors(idx, order2[m]).contains(x) implies queue2.contains(x) by {
        if m < n {
            assert(order2[m] == order[m]);
            assert(queue.contains(x));
            let i = choose|i: int| 0 <= i < queue.len() && queue[i] == x;
            assert(queue2[i] == x);
        } else {
            assert(order2[m] == f);
            let i = choose|i: int| 0 <= i < succ.len() && succ[i] == x;
            assert(queue2[queue.len() + i] == x);
        }
    }
}

proof fn lemma_visit_queued(
    idx: Seq<(Seq<char>, FileIndexView)>,
    order: Seq<Seq<char>>,
    queue: Seq<Seq<char>>,
    f: Seq<char>,
)
    requires
        queued_by(idx, order, queue),
    ensures
        queued_by(idx, order.push(f), queue + successors(idx, f)),
{
    let order2 = order.push(f);
    let succ = successors(idx, f);
    let queue2 = queue + succ;
    let n = order.len() as int;
    assert(order2[n] == f);
    assert forall|k: int| 0 < k < queue2.len() implies included_by_some(idx, order2, #[trigger] queue2[k]) by {
        if k < queue.len() {
            assert(queue2[k] == queue[k]);
            assert(included_by_some(idx, order, queue[k]));
            let m = choose|m: int| 0 <= m < order.len() && #[trigger] successors(idx, order[m]).contains(queue[k]);
            assert(order2[m] == order[m]);
            assert(successors(idx, order2[m]).contains(queue2[k]));
        } else {
            assert(queue2[k] == succ[k - queue.len()]);
            assert(succ.contains(queue2[k]));
            assert(successors(idx, order2[n]).contains(queue2[k]));
        }
    }
}

proof fn lemma_visit_included(
    idx: Seq<(Seq<char>, FileIndexView)>,
    order: Seq<Seq<char>>,
    queue: Seq<Seq<char>>,
    head: int,
)
    requires
        0 < head <= queue.len(),
        head - 1 == 0 ==> order.len() == 0,
        queued_by(idx, order, queue),
        included_by_earlier(idx, order),
    ensures
        included_by_earlier(idx, order.push(queue[head - 1])),
{
    let f = queue[head - 1];
    let order2 = order.push(f);
    let n = order.len() as int;
    assert forall|p: int| 0 < p < order2.len() implies included_by_some(idx, order2.take(p), #[trigger] order2[p]) by {
        if p < n {
            assert(order2.take(p) =~= order.take(p));
            assert(order2[p] == order[p]);
            assert(included_by_some(idx, order.take(p), order[p]));
        } else {
            assert(order2[p] == f);
            assert(order2.take(p) =~= order);
            assert(0 < head - 1 < queue.len());
            assert(included_by_some(idx, order, queue[head - 1]));
        }
    }
}

/// Visiting the next queued file `queue[head - 1]`, not visited before:
/// it joins `order` and the files it includes join `queue`; the facts the
/// search keeps hold of the result.
pub proof fn lemma_visit_new(
    idx: Seq<(Seq<char>, FileIndexView)>,
    order: Seq<Seq<char>>,
    queue: Seq<Seq<char>>,
    head: int,
    start: Seq<char>,
)
    requires
        0 < head <= queue.len(),
        queue[0] == start,
        head - 1 == 0 ==> order.len() == 0,
        head - 1 > 0 ==> order.len() > 0 && order[0] == start,
        forall|k: int| 0 <= k < head - 1 ==> #[trigger] order.contains(queue[k]),
        successors_within(idx, order, queue),
        queued_by(idx, order, queue),
        included_by_earlier(idx, order),
    ensures
        ({
            let f = queue[head - 1];
            let order2 = order.push(f);
            let queue2 = queue + successors(idx, f);
            &&& queue2[0] == start
            &&& order2.len() > 0 && order2[0] == start
            &&& forall|k: int| 0 <= k < head ==> #[trigger] order2.contains(queue2[k])
            &&& successors_within(idx, order2, queue2)
            &&& queued_by(idx, order2, queue2)
            &&& included_by_earlier(idx, order2)
        }),
{
    let f = queue[head - 1];
    let order2 = order.push(f);
    let queue2 = queue + successors(idx, f);
    lemma_visit_popped(order, queue, head, successors(idx, f));
    lemma_visit_within(idx, order, queue, f);
    lemma_visit_queued(idx, order, queue, f);
    lemma_visit_included(idx, order, queue, head);
    assert(queue2[0] == queue[0]);
    if head - 1 > 0 {
        assert(order2[0] == order[0]);
    } else {
        assert(order2[0] == f);
    }
}

/// Once every queued file has been visited, the files that the visited ones
/// include have all been visited.
pub proof fn lemma_search_done(idx: Seq<(Seq<char>, FileIndexView)>, order: Seq<Seq<char>>, queue: Seq<Seq<char>>)
    requires
        forall|k: int| 0 <= k < queue.len() ==> #[trigger] order.contains(queue[k]),
        successors_within(idx, order, queue),
    ensures
        successors_within(idx, order, order),
{
    assert forall|m: int, x: Seq<char>| 0 <= m < order.len() && #[trigger] successors(idx, order[m]).contains(x) implies order.contains(x) by {
        assert(queue.contains(x));
        let k = choose|k: int| 0 <= k < queue.len() && queue[k] == x;
        assert(order.contains(queue[k]));
    }
}

/// `r` holds every file that a file of `r` includes.
pub open spec fn closed_set(idx: Seq<(Seq<char>, FileIndexView)>, r: Set<Seq<char>>) -> bool {
    forall|f: Seq<char>, x: Seq<char>| r.contains(f) && #[trigger] successors(idx, f).contains(x) ==> r.contains(x)
}

proof fn lemma_reached_in(
    idx: Seq<(Seq<char>, FileIndexView)>,
    order: Seq<Seq<char>>,
    start: Seq<char>,
    r: Set<Seq<char>>,
    p: int,
)
    requires
        order.len() > 0,
        order[0] == start,
        included_by_earlier(idx, order),
        r.contains(start),
        closed_set(idx, r),
        0 <= p < order.len(),
    ensures
        r.contains(order[p]),
    decreases p,
{
    if p > 0 {
        assert(included_by_some(idx, order.take(p), order[p]));
        let m = choose|m: int| 0 <= m < order.take(p).len() && #[trigger] successors(idx, order.take(p)[m]).contains(order[p]);
        assert(order.take(p)[m] == order[m]);
        lemma_reached_in(idx, order, start, r, m);
    }
}

/// A search order that starts at `start` and whose every later file is
/// included by an earlier one lies within every include-closed set that
/// holds `start`.
pub proof fn lemma_order_least(idx: Seq<(Seq<char>, FileIndexView)>, order: Seq<Seq<char>>, start: Seq<char>, r: Set<Seq<char>>)
    requires
        order.len() > 0,
        order[0] == start,
        included_by_earlier(idx, order),
        r.contains(start),
        closed_set(idx, r),
    ensures
        forall|i: int| 0 <= i < order.len() ==> r.contains(#[trigger] order[i]),
{
    assert forall|i: int| 0 <= i < order.len() implies r.contains(#[trigger] order[i]) by {
        lemma_reached_in(idx, order, start, r, i);
    }
}

} // verus!
