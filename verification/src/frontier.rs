//! The invariant that a label-correcting search keeps between two pops of
//! its frontier, and what follows from it when the search stops.

use crate::graph::{capped_sum, Graph};
use crate::heap_node::HeapNode;
use crate::state::UNREACHED;
use vstd::multiset::Multiset;
use vstd::prelude::*;

verus! {

/// What one search direction has to solve: which nodes may be entered, the
/// estimate added to each queue key, and the node it starts from.
pub struct Task {
    pub open: Seq<bool>,
    pub h: Seq<u32>,
    pub src: int,
}

/// Bookkeeping of one search direction that no compiled code reads: the nodes
/// whose edges are all relaxed, and for each reached node the number of edges
/// of the walk that reached it, the edge that reached it, and a queue entry
/// that stands for it.
pub struct Trace {
    pub closed: Set<int>,
    pub hops: Seq<nat>,
    pub steps: Seq<int>,
    pub entry: Seq<HeapNode>,
}

/// Node `v` has been given a distance.
pub open spec fn reached(dist: Seq<u32>, v: int) -> bool {
    dist[v] < UNREACHED
}

/// The key under which node `v` is queued when it is given its distance.
pub open spec fn key_of(dist: Seq<u32>, h: Seq<u32>, v: int) -> int {
    capped_sum(dist[v] as int, h[v] as int)
}

pub open spec fn lex_below(d1: int, h1: nat, d2: int, h2: nat) -> bool {
    d1 < d2 || (d1 == d2 && h1 < h2)
}

/// An estimate of zero everywhere.
pub open spec fn no_estimate(n: int) -> Seq<u32> {
    crate::rounds::no_estimates(n)
}

/// Sum of all cells.
pub open spec fn total(cells: Seq<u32>) -> int
    decreases cells.len(),
{
    if cells.len() == 0 {
        0
    } else {
        total(cells.drop_last()) + cells.last()
    }
}

pub proof fn lemma_total_nonnegative(cells: Seq<u32>)
    ensures
        total(cells) >= 0,
    decreases cells.len(),
{
    if cells.len() > 0 {
        lemma_total_nonnegative(cells.drop_last());
    }
}

pub proof fn lemma_total_update(cells: Seq<u32>, i: int, x: u32)
    requires
        0 <= i < cells.len(),
    ensures
        total(cells.update(i, x)) == total(cells) - cells[i] + x,
    decreases cells.len(),
{
    if i == cells.len() - 1 {
        assert(cells.update(i, x).drop_last() =~= cells.drop_last());
    } else {
        lemma_total_update(cells.drop_last(), i, x);
        assert(cells.update(i, x).drop_last() =~= cells.drop_last().update(i, x));
    }
}

pub open spec fn shape_ok(g: &Graph, task: Task, dist: Seq<u32>, parent: Seq<u32>, tr: Trace) -> bool {
    let n = g.node_count();
    &&& g.wf()
    &&& 0 <= task.src < n
    &&& task.open.len() == n
    &&& task.h.len() == n
    &&& dist.len() == n
    &&& parent.len() == n
    &&& tr.hops.len() == n
    &&& tr.steps.len() == n
    &&& tr.entry.len() == n
    &&& dist[task.src] == 0
}

/// Every reached node other than the source hangs on an edge from its parent,
/// and parent pointers lead strictly downwards in (distance, hops).
pub open spec fn tree_ok(g: &Graph, task: Task, dist: Seq<u32>, parent: Seq<u32>, tr: Trace) -> bool {
    forall|v: int|
        0 <= v < g.node_count() && v != task.src && #[trigger] reached(dist, v) ==> {
            let u = parent[v] as int;
            let k = tr.steps[v];
            &&& g.leaves(k, u)
            &&& g.target(k) == v
            &&& task.open[v]
            &&& dist[u] + g.weight(k) <= dist[v]
            &&& lex_below(dist[u] as int, tr.hops[u], dist[v] as int, tr.hops[v])
        }
}

/// Closed nodes are reached, and no open edge out of one can improve a
/// distance.
pub open spec fn closed_ok(g: &Graph, task: Task, dist: Seq<u32>, tr: Trace) -> bool {
    &&& forall|u: int| #[trigger]
        tr.closed.contains(u) ==> 0 <= u < g.node_count() && dist[u] < UNREACHED
    &&& forall|u: int, k: int|
        tr.closed.contains(u) && #[trigger] g.leaves(k, u) && task.open[g.target(k)]
            ==> dist[g.target(k)] <= dist[u] + g.weight(k)
}

/// Every reached node that is neither closed nor being expanded is in the
/// queue under a key that does not exceed its own.
pub open spec fn queued_ok(
    g: &Graph,
    task: Task,
    dist: Seq<u32>,
    q: Multiset<HeapNode>,
    tr: Trace,
    busy: int,
) -> bool {
    forall|v: int|
        0 <= v < g.node_count() && v != busy && !tr.closed.contains(v) && #[trigger] reached(
            dist,
            v,
        ) ==> {
            &&& q.count(tr.entry[v]) > 0
            &&& tr.entry[v].id == v
            &&& tr.entry[v].distance <= key_of(dist, task.h, v)
        }
}

/// Every queue entry names a reached node, under a key that is at least the
/// node's own unless the node is the source.
pub open spec fn entries_ok(g: &Graph, task: Task, dist: Seq<u32>, q: Multiset<HeapNode>) -> bool {
    forall|e: HeapNode| #[trigger]
        q.count(e) > 0 ==> {
            &&& e.id < g.node_count()
            &&& dist[e.id as int] < UNREACHED
            &&& (e.id == task.src || key_of(dist, task.h, e.id as int) <= e.distance)
        }
}

pub open spec fn frontier_ok(
    g: &Graph,
    task: Task,
    dist: Seq<u32>,
    parent: Seq<u32>,
    q: Multiset<HeapNode>,
    tr: Trace,
    busy: int,
) -> bool {
    &&& shape_ok(g, task, dist, parent, tr)
    &&& tree_ok(g, task, dist, parent, tr)
    &&& closed_ok(g, task, dist, tr)
    &&& queued_ok(g, task, dist, q, tr, busy)
    &&& entries_ok(g, task, dist, q)
}

/// The edges of `u` before edge `k` cannot improve a distance.
pub open spec fn scanned(g: &Graph, task: Task, dist: Seq<u32>, u: int, k: int) -> bool {
    forall|j: int|
        j < k && #[trigger] g.leaves(j, u) && task.open[g.target(j)] ==> dist[g.target(j)]
            <= dist[u] + g.weight(j)
}

/// No entry of the queue precedes `e`.
pub open spec fn is_first(q: Multiset<HeapNode>, e: HeapNode) -> bool {
    forall|x: HeapNode| q.count(x) > 0 ==> !x.precedes(e)
}

/// The trace of a search that has reached nothing but its source.
pub open spec fn start_trace(n: int, src: int) -> Trace {
    Trace {
        closed: Set::empty(),
        hops: Seq::new(n as nat, |v: int| 0nat),
        steps: Seq::new(n as nat, |v: int| 0int),
        entry: Seq::new(n as nat, |v: int| HeapNode { id: src as u32, distance: 0 }),
    }
}

/// The trace after the edge `k` out of `u` gave `dest` a smaller distance.
pub open spec fn relaxed_trace(tr: Trace, u: int, k: int, dest: int, key: u32) -> Trace {
    Trace {
        closed: tr.closed.remove(dest),
        hops: tr.hops.update(dest, tr.hops[u] + 1),
        steps: tr.steps.update(dest, k),
        entry: tr.entry.update(dest, HeapNode { id: dest as u32, distance: key }),
    }
}

/// The trace after every edge of `u` has been relaxed.
pub open spec fn closed_trace(tr: Trace, u: int) -> Trace {
    Trace { closed: tr.closed.insert(u), ..tr }
}

pub proof fn lemma_start(g: &Graph, task: Task, dist: Seq<u32>, parent: Seq<u32>, q: Multiset<HeapNode>)
    requires
        g.wf(),
        0 <= task.src < g.node_count(),
        task.open.len() == g.node_count(),
        task.h.len() == g.node_count(),
        dist.len() == g.node_count(),
        parent.len() == g.node_count(),
        dist[task.src] == 0,
        forall|v: int| 0 <= v < dist.len() && v != task.src ==> dist[v] == UNREACHED,
        q == Multiset::<HeapNode>::empty().insert(HeapNode { id: task.src as u32, distance: 0 }),
    ensures
        frontier_ok(g, task, dist, parent, q, start_trace(g.node_count(), task.src), -1),
{
    broadcast use vstd::multiset::group_multiset_axioms;

    let tr = start_trace(g.node_count(), task.src);
    assert(tree_ok(g, task, dist, parent, tr));
    assert(closed_ok(g, task, dist, tr));
    assert(queued_ok(g, task, dist, q, tr, -1));
    assert(entries_ok(g, task, dist, q)) by {
        assert forall|e: HeapNode| #[trigger] q.count(e) > 0 implies e.id == task.src by {
            if e != (HeapNode { id: task.src as u32, distance: 0 }) {
                assert(q.count(e) == 0);
            }
        }
    }
}

pub proof fn lemma_popped(
    g: &Graph,
    task: Task,
    dist: Seq<u32>,
    parent: Seq<u32>,
    q: Multiset<HeapNode>,
    tr: Trace,
    e: HeapNode,
)
    requires
        frontier_ok(g, task, dist, parent, q, tr, -1),
        q.count(e) > 0,
    ensures
        frontier_ok(g, task, dist, parent, q.remove(e), tr, e.id as int),
        e.id < g.node_count(),
        dist[e.id as int] < UNREACHED,
{
    broadcast use vstd::multiset::group_multiset_axioms;

    let q2 = q.remove(e);
    assert forall|v: int|
        0 <= v < g.node_count() && v != e.id && !tr.closed.contains(v) && #[trigger] reached(
            dist,
            v,
        ) implies {
        &&& q2.count(tr.entry[v]) > 0
        &&& tr.entry[v].id == v
        &&& tr.entry[v].distance <= key_of(dist, task.h, v)
    } by {
        assert(tr.entry[v] != e);
    }
    assert forall|x: HeapNode| #[trigger] q2.count(x) > 0 implies q.count(x) > 0 by {}
}

pub proof fn lemma_relaxed(
    g: &Graph,
    task: Task,
    dist: Seq<u32>,
    parent: Seq<u32>,
    q: Multiset<HeapNode>,
    tr: Trace,
    u: int,
    k: int,
    key: u32,
)
    requires
        frontier_ok(g, task, dist, parent, q, tr, u),
        scanned(g, task, dist, u, k),
        g.leaves(k, u),
        dist[u] < UNREACHED,
        task.open[g.target(k)],
        dist[u] + g.weight(k) < dist[g.target(k)],
        key == capped_sum(dist[u] + g.weight(k), task.h[g.target(k)] as int),
    ensures
        ({
            let dest = g.target(k);
            let dist2 = dist.update(dest, (dist[u] + g.weight(k)) as u32);
            frontier_ok(
                g,
                task,
                dist2,
                parent.update(dest, u as u32),
                q.insert(HeapNode { id: dest as u32, distance: key }),
                relaxed_trace(tr, u, k, dest, key),
                u,
            ) && scanned(g, task, dist2, u, k + 1) && dist2[u] == dist[u] && dest != task.src
        }),
{
    broadcast use vstd::multiset::group_multiset_axioms;

    g.lemma_edge_in_range(k, u);
    let dest = g.target(k);
    let reach = (dist[u] + g.weight(k)) as u32;
    let dist2 = dist.update(dest, reach);
    let parent2 = parent.update(dest, u as u32);
    let fresh = HeapNode { id: dest as u32, distance: key };
    let q2 = q.insert(fresh);
    let tr2 = relaxed_trace(tr, u, k, dest, key);
    assert(dest != u);
    assert(dest != task.src);
    assert forall|v: int|
        0 <= v < g.node_count() && v != task.src && #[trigger] reached(dist2, v) implies {
        let p = parent2[v] as int;
        let s = tr2.steps[v];
        &&& g.leaves(s, p)
        &&& g.target(s) == v
        &&& task.open[v]
        &&& dist2[p] + g.weight(s) <= dist2[v]
        &&& lex_below(dist2[p] as int, tr2.hops[p], dist2[v] as int, tr2.hops[v])
    } by {
        if v != dest {
            assert(reached(dist, v));
        }
    }
    assert(closed_ok(g, task, dist2, tr2));
    assert forall|v: int|
        0 <= v < g.node_count() && v != u && !tr2.closed.contains(v) && #[trigger] reached(
            dist2,
            v,
        ) implies {
        &&& q2.count(tr2.entry[v]) > 0
        &&& tr2.entry[v].id == v
        &&& tr2.entry[v].distance <= key_of(dist2, task.h, v)
    } by {
        if v != dest {
            assert(reached(dist, v));
        }
    }
    assert forall|e: HeapNode| #[trigger] q2.count(e) > 0 implies {
        &&& e.id < g.node_count()
        &&& dist2[e.id as int] < UNREACHED
        &&& (e.id == task.src || key_of(dist2, task.h, e.id as int) <= e.distance)
    } by {
        if e != fresh {
            assert(q.count(e) > 0);
        }
    }
    assert forall|j: int|
        j < k + 1 && #[trigger] g.leaves(j, u) && task.open[g.target(j)] implies dist2[g.target(
            j,
        )] <= dist2[u] + g.weight(j) by {
        if j < k {
            assert(dist[g.target(j)] <= dist[u] + g.weight(j));
        }
    }
}

pub proof fn lemma_skipped(g: &Graph, task: Task, dist: Seq<u32>, u: int, k: int)
    requires
        scanned(g, task, dist, u, k),
        !task.open[g.target(k)] || dist[g.target(k)] <= dist[u] + g.weight(k),
    ensures
        scanned(g, task, dist, u, k + 1),
{
}

pub proof fn lemma_closed(
    g: &Graph,
    task: Task,
    dist: Seq<u32>,
    parent: Seq<u32>,
    q: Multiset<HeapNode>,
    tr: Trace,
    u: int,
)
    requires
        frontier_ok(g, task, dist, parent, q, tr, u),
        0 <= u < g.node_count(),
        dist[u] < UNREACHED,
        scanned(g, task, dist, u, g.offsets@[u + 1].0 as int),
    ensures
        frontier_ok(g, task, dist, parent, q, closed_trace(tr, u), -1),
{
    let tr2 = closed_trace(tr, u);
    assert(tree_ok(g, task, dist, parent, tr2));
    assert forall|v: int|
        0 <= v < g.node_count() && v != -1 && !tr2.closed.contains(v) && #[trigger] reached(
            dist,
            v,
        ) implies {
        &&& q.count(tr2.entry[v]) > 0
        &&& tr2.entry[v].id == v
        &&& tr2.entry[v].distance <= key_of(dist, task.h, v)
    } by {
        assert(v != u);
        assert(!tr.closed.contains(v));
    }
}

/// Along a walk from the source, as long as every node before position `j`
/// is closed, the distance of the node at `j` is at most the length walked.
pub proof fn lemma_closed_prefix(
    g: &Graph,
    task: Task,
    dist: Seq<u32>,
    parent: Seq<u32>,
    tr: Trace,
    nodes: Seq<int>,
    steps: Seq<int>,
    j: int,
)
    requires
        shape_ok(g, task, dist, parent, tr),
        closed_ok(g, task, dist, tr),
        g.is_walk(task.open, nodes, steps),
        nodes[0] == task.src,
        0 <= j < nodes.len(),
        forall|i: int| 0 <= i < j ==> tr.closed.contains(#[trigger] nodes[i]),
    ensures
        dist[nodes[j]] <= g.walk_weight(steps.take(j)),
        0 <= nodes[j] < g.node_count(),
    decreases j,
{
    g.lemma_walk_nodes_in_range(task.open, nodes, steps, j);
    if j == 0 {
        assert(steps.take(0) =~= Seq::<int>::empty());
    } else {
        lemma_closed_prefix(g, task, dist, parent, tr, nodes, steps, j - 1);
        assert(tr.closed.contains(nodes[j - 1]));
        assert(g.leaves(steps[j - 1], nodes[j - 1]));
        assert(steps.take(j).drop_last() =~= steps.take(j - 1));
        assert(steps.take(j).last() == steps[j - 1]);
    }
}

/// The first position at or after `from` whose node is not closed, or the
/// length of the walk where every node from `from` on is closed.
pub open spec fn first_unclosed(closed: Set<int>, nodes: Seq<int>, from: int) -> int
    decreases nodes.len() - from,
{
    if from >= nodes.len() {
        nodes.len() as int
    } else if !closed.contains(nodes[from]) {
        from
    } else {
        first_unclosed(closed, nodes, from + 1)
    }
}

pub proof fn lemma_first_unclosed(closed: Set<int>, nodes: Seq<int>, from: int)
    requires
        0 <= from <= nodes.len(),
    ensures
        from <= first_unclosed(closed, nodes, from) <= nodes.len(),
        forall|i: int|
            from <= i < first_unclosed(closed, nodes, from) ==> closed.contains(#[trigger] nodes[i]),
        first_unclosed(closed, nodes, from) < nodes.len() ==> !closed.contains(
            nodes[first_unclosed(closed, nodes, from)],
        ),
    decreases nodes.len() - from,
{
    if from < nodes.len() && closed.contains(nodes[from]) {
        lemma_first_unclosed(closed, nodes, from + 1);
    }
}

/// A consistent estimate at a node of a walk is at most the rest of the walk
/// plus the estimate at its end.
pub proof fn lemma_consistent_suffix(
    g: &Graph,
    open: Seq<bool>,
    h: Seq<u32>,
    t: int,
    nodes: Seq<int>,
    steps: Seq<int>,
    i: int,
)
    requires
        g.wf(),
        g.consistent(open, h, t),
        g.is_walk(open, nodes, steps),
        0 <= i < nodes.len(),
    ensures
        h[nodes[i]] <= g.walk_weight(steps.skip(i)) + h[nodes.last()],
    decreases nodes.len() - i,
{
    if i == nodes.len() - 1 {
        assert(steps.skip(i) =~= Seq::<int>::empty());
    } else {
        lemma_consistent_suffix(g, open, h, t, nodes, steps, i + 1);
        assert(g.leaves(steps[i], nodes[i]));
        assert(steps.skip(i) =~= seq![steps[i]] + steps.skip(i + 1));
        g.lemma_weight_concat(seq![steps[i]], steps.skip(i + 1));
        g.lemma_weight_single(steps[i]);
    }
}

/// What holds of any walk from the source to `t` at the moment the entry `e`
/// is first in the queue: either the walk is closed all along and the
/// distance of `t` is at most its length, or the key of `e` is at most the
/// length walked to some node plus the estimate there.
pub proof fn lemma_walk_meets_frontier(
    g: &Graph,
    task: Task,
    dist: Seq<u32>,
    parent: Seq<u32>,
    q: Multiset<HeapNode>,
    tr: Trace,
    e: HeapNode,
    nodes: Seq<int>,
    steps: Seq<int>,
) -> (i: int)
    requires
        frontier_ok(g, task, dist, parent, q, tr, -1),
        is_first(q, e),
        g.is_walk(task.open, nodes, steps),
        nodes[0] == task.src,
        g.walk_weight(steps) < UNREACHED,
    ensures
        0 <= i <= nodes.len(),
        i == nodes.len() ==> tr.closed.contains(nodes.last()) && dist[nodes.last()]
            <= g.walk_weight(steps),
        i < nodes.len() ==> !tr.closed.contains(nodes[i]) && dist[nodes[i]] <= g.walk_weight(
            steps.take(i),
        ) && e.distance <= g.walk_weight(steps.take(i)) + task.h[nodes[i]] && q.len() > 0,
        forall|j: int| 0 <= j < i ==> tr.closed.contains(#[trigger] nodes[j]),
{
    broadcast use vstd::multiset::group_multiset_axioms;

    lemma_first_unclosed(tr.closed, nodes, 0);
    let i = first_unclosed(tr.closed, nodes, 0);
    if i == nodes.len() {
        lemma_closed_prefix(g, task, dist, parent, tr, nodes, steps, i - 1);
        assert(steps.take(i - 1) =~= steps);
    } else {
        lemma_closed_prefix(g, task, dist, parent, tr, nodes, steps, i);
        g.lemma_walk_split(task.open, nodes, steps, i);
        g.lemma_weight_nonnegative(steps.skip(i));
        let x = nodes[i];
        assert(reached(dist, x));
        assert(q.count(tr.entry[x]) > 0);
        assert(!tr.entry[x].precedes(e));
        vstd::multiset::axiom_count_le_len(q, tr.entry[x]);
    }
    i
}

/// When the entry of `t` is first in the queue, the distance of `t` exceeds
/// the length of no walk to it by more than the estimate allows: with a
/// consistent estimate it exceeds none.
pub proof fn lemma_target_first(
    g: &Graph,
    task: Task,
    dist: Seq<u32>,
    parent: Seq<u32>,
    q: Multiset<HeapNode>,
    tr: Trace,
    e: HeapNode,
)
    requires
        frontier_ok(g, task, dist, parent, q, tr, -1),
        is_first(q, e),
        q.count(e) > 0,
        !tr.closed.contains(e.id as int),
        g.consistent(task.open, task.h, e.id as int),
    ensures
        g.bounds_below(task.open, task.src, e.id as int, dist[e.id as int] as int),
{
    let t = e.id as int;
    assert forall|nodes: Seq<int>, steps: Seq<int>|
        #[trigger] g.is_walk(task.open, nodes, steps) && nodes[0] == task.src && nodes.last()
            == t implies dist[t] <= g.walk_weight(steps) by {
        if g.walk_weight(steps) < UNREACHED {
            let i = lemma_walk_meets_frontier(g, task, dist, parent, q, tr, e, nodes, steps);
            assert(i < nodes.len());
            lemma_consistent_suffix(g, task.open, task.h, t, nodes, steps, i);
            g.lemma_walk_split(task.open, nodes, steps, i);
        }
    }
}

/// When the queue is empty and `t` is not closed, no walk shorter than the
/// "unreached" value leads to `t`.
pub proof fn lemma_exhausted(
    g: &Graph,
    task: Task,
    dist: Seq<u32>,
    parent: Seq<u32>,
    q: Multiset<HeapNode>,
    tr: Trace,
    t: int,
)
    requires
        frontier_ok(g, task, dist, parent, q, tr, -1),
        q.len() == 0,
        !tr.closed.contains(t),
    ensures
        g.bounds_below(task.open, task.src, t, UNREACHED as int),
{
    let e = HeapNode { id: 0, distance: 0 };
    assert(is_first(q, e)) by {
        assert forall|x: HeapNode| q.count(x) > 0 implies !x.precedes(e) by {
            vstd::multiset::axiom_count_le_len(q, x);
        }
    }
    assert forall|nodes: Seq<int>, steps: Seq<int>|
        #[trigger] g.is_walk(task.open, nodes, steps) && nodes[0] == task.src && nodes.last()
            == t implies UNREACHED <= g.walk_weight(steps) by {
        if g.walk_weight(steps) < UNREACHED {
            let i = lemma_walk_meets_frontier(g, task, dist, parent, q, tr, e, nodes, steps);
        }
    }
}

} // verus!
