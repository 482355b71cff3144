//! Dijkstra's search run from both ends at once.

use crate::frontier::{
    closed_trace, frontier_ok, is_first, lemma_closed, lemma_closed_prefix, lemma_exhausted,
    lemma_popped, lemma_relaxed, lemma_skipped, lemma_start, lemma_total_nonnegative,
    lemma_total_update, lemma_walk_meets_frontier, no_estimate, reached, relaxed_trace, scanned,
    shape_ok, start_trace, total, tree_ok, Task, Trace,
};
use crate::graph::{as_ints, Graph};
use crate::heap_node::HeapNode;
use crate::queue::NodeQueue;
use crate::rounds::{
    both_after, both_meet, both_round, both_stop, capped_count, expand, first_entry,
    is_both_result, is_meeting_path, is_parent_chain, lemma_first_entry, no_estimates, popped,
    relax_upto, Side,
};
use crate::search::{count_pops, extend_to_root, lemma_settle, search_outcome, PathResult};
use crate::state::{AlgorithmState, UNREACHED};
use vstd::multiset::Multiset;
use vstd::prelude::*;

verus! {

/// The task of one side: plain Dijkstra from `src` over every node.
spec fn side(g: &Graph, src: int) -> Task {
    Task { open: g.all_open(), h: no_estimate(g.node_count()), src }
}

/// Both sides have reached node `v`.
spec fn met(a: Seq<u32>, b: Seq<u32>, v: int) -> bool {
    0 <= v < a.len() && a[v] < UNREACHED && b[v] < UNREACHED
}

/// `best` is the sum of both distances of `middle` once it is set, and where
/// the two sources differ it exceeds the sum at no node that both sides
/// have reached.
spec fn meet_ok(a: Seq<u32>, b: Seq<u32>, best: u32, middle: usize, strict: bool) -> bool {
    &&& best < UNREACHED ==> middle < a.len() && a[middle as int] < UNREACHED && b[middle as int]
        < UNREACHED && a[middle as int] + b[middle as int] == best
    &&& strict ==> forall|v: int| #[trigger] met(a, b, v) ==> best <= a[v] + b[v]
}

proof fn lemma_meet_swap(a: Seq<u32>, b: Seq<u32>, best: u32, middle: usize, strict: bool)
    requires
        a.len() == b.len(),
        meet_ok(a, b, best, middle, strict),
    ensures
        meet_ok(b, a, best, middle, strict),
{
    if strict {
        assert forall|v: int| #[trigger] met(b, a, v) implies best <= b[v] + a[v] by {
            assert(met(a, b, v));
        }
    }
}

/// Every reached node other than `src` has a parent that is no farther
/// from `src` than the node itself.
spec fn parents_below(dist: Seq<u32>, parent: Seq<u32>, src: int) -> bool {
    forall|v: int|
        0 <= v < dist.len() && v != src && #[trigger] reached(dist, v) ==> parent[v] < dist.len()
            && dist[parent[v] as int] <= dist[v]
}

proof fn lemma_parents_below(g: &Graph, task: Task, dist: Seq<u32>, parent: Seq<u32>, tr: Trace)
    requires
        shape_ok(g, task, dist, parent, tr),
        tree_ok(g, task, dist, parent, tr),
    ensures
        parents_below(dist, parent, task.src),
{
    assert forall|v: int| 0 <= v < dist.len() && v != task.src && #[trigger] reached(dist, v) implies parent[v]
        < dist.len() && dist[parent[v] as int] <= dist[v] by {
        assert(g.leaves(tr.steps[v], parent[v] as int));
    }
}

/// `stamp[v]` is the time, before `clock`, at which one side last lowered
/// the distance of `v`. A node that is no farther than its parent was
/// stamped after it.
spec fn stamps_ok(dist: Seq<u32>, parent: Seq<u32>, src: int, stamp: Seq<nat>, clock: nat) -> bool {
    &&& stamp.len() == dist.len()
    &&& forall|v: int| 0 <= v < stamp.len() ==> #[trigger] stamp[v] < clock
    &&& forall|v: int|
        0 <= v < dist.len() && v != src && #[trigger] reached(dist, v) && dist[parent[v] as int]
            == dist[v] ==> stamp[parent[v] as int] < stamp[v]
}

/// The time at which the later of the two sides last lowered the distance of `v`.
spec fn later(sa: Seq<nat>, sb: Seq<nat>, v: int) -> nat {
    if sa[v] >= sb[v] {
        sa[v]
    } else {
        sb[v]
    }
}

/// Of the nodes at which the two distances add up to `best`, `middle` is
/// the one that came to its distances first.
spec fn first_met(
    a: Seq<u32>,
    b: Seq<u32>,
    sa: Seq<nat>,
    sb: Seq<nat>,
    best: u32,
    middle: usize,
) -> bool {
    best < UNREACHED ==> forall|v: int| #[trigger]
        met(a, b, v) && v != middle && a[v] + b[v] == best ==> later(sa, sb, v) > later(
            sa,
            sb,
            middle as int,
        )
}

proof fn lemma_first_met_swap(
    a: Seq<u32>,
    b: Seq<u32>,
    sa: Seq<nat>,
    sb: Seq<nat>,
    best: u32,
    middle: usize,
)
    requires
        a.len() == b.len(),
        first_met(a, b, sa, sb, best, middle),
    ensures
        first_met(b, a, sb, sa, best, middle),
{
    if best < UNREACHED {
        assert forall|v: int| #[trigger]
            met(b, a, v) && v != middle && b[v] + a[v] == best implies later(sb, sa, v) > later(
            sb,
            sa,
            middle as int,
        ) by {
            assert(met(a, b, v));
        }
    }
}

/// Lowering the distance of `dest` to `reach` through the parent `pu` at
/// the time `clock` keeps the stamps in order, and keeps `middle` the first
/// of the best meetings.
proof fn lemma_stamp_relaxed(
    a: Seq<u32>,
    parent: Seq<u32>,
    src: int,
    sa: Seq<nat>,
    b: Seq<u32>,
    sb: Seq<nat>,
    clock: nat,
    best: u32,
    middle: usize,
    strict: bool,
    pu: u32,
    dest: int,
    reach: u32,
    best2: u32,
    middle2: usize,
)
    requires
        a.len() == parent.len(),
        a.len() == b.len(),
        sb.len() == a.len(),
        forall|v: int| 0 <= v < sb.len() ==> #[trigger] sb[v] < clock,
        stamps_ok(a, parent, src, sa, clock),
        parents_below(a, parent, src),
        0 <= pu < a.len(),
        0 <= dest < a.len(),
        a[pu as int] <= reach,
        reach < a[dest],
        meet_ok(a, b, best, middle, strict),
        strict ==> first_met(a, b, sa, sb, best, middle),
        b[dest] != UNREACHED && reach + b[dest] < best ==> best2 == reach + b[dest] && middle2
            == dest,
        !(b[dest] != UNREACHED && reach + b[dest] < best) ==> best2 == best && middle2 == middle,
    ensures
        stamps_ok(a.update(dest, reach), parent.update(dest, pu), src, sa.update(dest, clock), clock + 1),
        strict ==> first_met(a.update(dest, reach), b, sa.update(dest, clock), sb, best2, middle2),
{
    let later_dist = a.update(dest, reach);
    let later_parent = parent.update(dest, pu);
    let later_stamp = sa.update(dest, clock);
    assert forall|v: int|
        0 <= v < later_dist.len() && v != src && #[trigger] reached(later_dist, v) && later_dist[later_parent[v] as int]
            == later_dist[v] implies later_stamp[later_parent[v] as int] < later_stamp[v] by {
        if v != dest {
            assert(reached(a, v));
        }
    }
    if strict && best2 < UNREACHED {
        let hit = b[dest] != UNREACHED && reach + b[dest] < best;
        assert forall|v: int| #[trigger]
            met(later_dist, b, v) && v != middle2 && later_dist[v] + b[v] == best2 implies later(later_stamp, sb, v) > later(
            later_stamp,
            sb,
            middle2 as int,
        ) by {
            if v != dest {
                assert(met(a, b, v));
            }
        }
    }
}

/// Along the parent pointers the distance does not grow, and a node as far
/// as the first of the chain was stamped before it.
proof fn lemma_chain_order(
    dist: Seq<u32>,
    parent: Seq<u32>,
    src: int,
    stamp: Seq<nat>,
    clock: nat,
    chain: Seq<usize>,
    i: int,
)
    requires
        parents_below(dist, parent, src),
        stamps_ok(dist, parent, src, stamp, clock),
        chain.len() >= 1,
        is_parent_chain(parent, chain, chain[0] as int, src),
        chain[0] < dist.len(),
        reached(dist, chain[0] as int),
        0 <= i < chain.len(),
    ensures
        chain[i] < dist.len(),
        reached(dist, chain[i] as int),
        dist[chain[i] as int] <= dist[chain[0] as int],
        i > 0 && dist[chain[i] as int] == dist[chain[0] as int] ==> stamp[chain[i] as int]
            < stamp[chain[0] as int],
    decreases i,
{
    if i > 0 {
        lemma_chain_order(dist, parent, src, stamp, clock, chain, i - 1);
        let v = chain[i - 1] as int;
        assert(chain[i - 1] != src);
        assert(chain[i] == parent[v]);
        assert(reached(dist, v));
    }
}

/// The two halves of the route through the first of the best meetings
/// share no node but the meeting node.
proof fn lemma_halves_apart(
    dn: Seq<u32>,
    pn: Seq<u32>,
    s: int,
    sn: Seq<nat>,
    df: Seq<u32>,
    pf: Seq<u32>,
    t: int,
    sf: Seq<nat>,
    clock: nat,
    best: u32,
    middle: usize,
    back: Seq<usize>,
    on: Seq<usize>,
)
    requires
        dn.len() == df.len(),
        parents_below(dn, pn, s),
        parents_below(df, pf, t),
        stamps_ok(dn, pn, s, sn, clock),
        stamps_ok(df, pf, t, sf, clock),
        best < UNREACHED,
        meet_ok(dn, df, best, middle, true),
        first_met(dn, df, sn, sf, best, middle),
        is_parent_chain(pf, back, middle as int, t),
        is_parent_chain(pn, on, middle as int, s),
        back.no_duplicates(),
        on.no_duplicates(),
    ensures
        (back.reverse() + on.skip(1)).no_duplicates(),
{
    let path = back.reverse() + on.skip(1);
    let m = back.len() as int;
    assert forall|i: int, j: int| 0 <= i < m && 1 <= j < on.len() implies back[i] != on[j] by {
        if back[i] == on[j] {
            if i == 0 {
                assert(on[0] == on[j]);
            } else {
                lemma_chain_order(df, pf, t, sf, clock, back, i);
                lemma_chain_order(dn, pn, s, sn, clock, on, j);
                let v = back[i] as int;
                assert(back[i] != back[0]);
                assert(met(dn, df, v));
            }
        }
    }
    assert forall|i: int, j: int| 0 <= i < path.len() && 0 <= j < path.len() && i != j implies path[i]
        != path[j] by {
        if i < m {
            assert(path[i] == back[m - 1 - i]);
        } else {
            assert(path[i] == on[i - m + 1]);
        }
        if j < m {
            assert(path[j] == back[m - 1 - j]);
        } else {
            assert(path[j] == on[j - m + 1]);
        }
    }
}

/// When both sides stop, the best meeting found is no longer than the walk
/// `nodes` between the two sources.
proof fn lemma_meeting_walk(
    g: &Graph,
    s: int,
    t: int,
    d1: Seq<u32>,
    near_parent: Seq<u32>,
    q1: Multiset<HeapNode>,
    tr1: Trace,
    e1: HeapNode,
    d2: Seq<u32>,
    far_parent: Seq<u32>,
    q2: Multiset<HeapNode>,
    tr2: Trace,
    e2: HeapNode,
    best: u32,
    middle: usize,
    nodes: Seq<int>,
    steps: Seq<int>,
)
    requires
        g.is_undirected(),
        frontier_ok(g, side(g, s), d1, near_parent, q1, tr1, -1),
        frontier_ok(g, side(g, t), d2, far_parent, q2, tr2, -1),
        is_first(q1, e1),
        is_first(q2, e2),
        e1.distance + e2.distance >= best,
        meet_ok(d1, d2, best, middle, true),
        !tr1.closed.contains(t),
        !tr2.closed.contains(s),
        g.is_walk(g.all_open(), nodes, steps),
        nodes[0] == s,
        nodes.last() == t,
        g.walk_weight(steps) < UNREACHED,
    ensures
        best <= g.walk_weight(steps),
{
    let open = g.all_open();
    let m = steps.len() as int;
    let i = lemma_walk_meets_frontier(g, side(g, s), d1, near_parent, q1, tr1, e1, nodes, steps);
    assert(i < nodes.len());
    g.lemma_walk_split(open, nodes, steps, i);
    let out = g.walk_weight(steps.take(i));
    let rest = g.walk_weight(steps.skip(i));
    assert(side(g, s).h[nodes[i]] == 0);
    assert(e1.distance <= out);
    assert(d1[nodes[i]] <= out);
    assert(g.walk_weight(steps) == out + rest);

    g.lemma_walk_reversed(nodes, steps);
    let back_nodes = nodes.reverse();
    let back = g.reversed_steps(nodes, steps);
    let i2 = lemma_walk_meets_frontier(g, side(g, t), d2, far_parent, q2, tr2, e2, back_nodes, back);
    assert(i2 < back_nodes.len());
    g.lemma_walk_nodes_in_range(open, back_nodes, back, i2);
    assert(side(g, t).h[back_nodes[i2]] == 0);
    g.lemma_reversed_weight(nodes, steps, i2);
    let j = m - i2;
    let tail = g.walk_weight(steps.skip(j));
    assert(e2.distance <= tail);
    if i <= j {
        assert(steps.skip(i) =~= steps.subrange(i, j) + steps.skip(j));
        g.lemma_weight_concat(steps.subrange(i, j), steps.skip(j));
        g.lemma_weight_nonnegative(steps.subrange(i, j));
        assert(rest >= tail);
    } else {
        lemma_closed_prefix(g, side(g, t), d2, far_parent, tr2, back_nodes, back, m - i);
        g.lemma_reversed_weight(nodes, steps, m - i);
        assert(back_nodes[m - i] == nodes[i]);
        assert(d2[nodes[i]] <= rest);
        assert(met(d1, d2, nodes[i]));
    }
}

/// When both sides stop, no walk between the two sources is shorter than
/// the best meeting found.
proof fn lemma_meeting_bound(
    g: &Graph,
    s: int,
    t: int,
    d1: Seq<u32>,
    near_parent: Seq<u32>,
    q1: Multiset<HeapNode>,
    tr1: Trace,
    e1: HeapNode,
    d2: Seq<u32>,
    far_parent: Seq<u32>,
    q2: Multiset<HeapNode>,
    tr2: Trace,
    e2: HeapNode,
    best: u32,
    middle: usize,
)
    requires
        g.is_undirected(),
        s != t,
        frontier_ok(g, side(g, s), d1, near_parent, q1, tr1, -1),
        frontier_ok(g, side(g, t), d2, far_parent, q2, tr2, -1),
        is_first(q1, e1),
        is_first(q2, e2),
        e1.distance + e2.distance >= best,
        meet_ok(d1, d2, best, middle, true),
        !tr1.closed.contains(t),
        !tr2.closed.contains(s),
    ensures
        g.bounds_below(g.all_open(), s, t, best as int),
{
    let open = g.all_open();
    assert forall|nodes: Seq<int>, steps: Seq<int>|
        #[trigger] g.is_walk(open, nodes, steps) && nodes[0] == s && nodes.last() == t implies best
        <= g.walk_weight(steps) by {
        if g.walk_weight(steps) < UNREACHED {
            lemma_meeting_walk(
                g,
                s,
                t,
                d1,
                near_parent,
                q1,
                tr1,
                e1,
                d2,
                far_parent,
                q2,
                tr2,
                e2,
                best,
                middle,
                nodes,
                steps,
            );
        }
    }
}

/// Walks the found route's two halves into one: the walk from `s` to the
/// meeting node, then the walk from the other source walked backwards.
proof fn lemma_route_through(
    g: &Graph,
    s: int,
    t: int,
    middle: usize,
    near: Seq<usize>,
    far: Seq<usize>,
    near_steps: Seq<int>,
    far_steps: Seq<int>,
    path: Seq<usize>,
    d: int,
)
    requires
        g.wf(),
        g.is_undirected(),
        (seq![middle] + near).last() == s,
        (seq![middle] + far).last() == t,
        g.is_walk(g.all_open(), as_ints(seq![middle] + near).reverse(), near_steps),
        g.is_walk(g.all_open(), as_ints(seq![middle] + far).reverse(), far_steps),
        g.walk_weight(near_steps) + g.walk_weight(far_steps) <= d,
        path == (seq![middle] + far).reverse() + near,
    ensures
        g.is_route_within(g.all_open(), path, s, t, d),
{
    let open = g.all_open();
    let out = as_ints(seq![middle] + near).reverse();
    let home = as_ints(seq![middle] + far).reverse();
    g.lemma_walk_reversed(home, far_steps);
    let back = g.reversed_steps(home, far_steps);
    assert(out.last() == middle as int);
    assert(home.reverse()[0] == middle as int);
    g.lemma_walk_join(open, out, near_steps, home.reverse(), back);
    let whole = out + home.reverse().skip(1);
    assert(as_ints(path).reverse() =~= whole);
    assert(g.is_walk(open, as_ints(path).reverse(), near_steps + back));
}

/// Reverses `v` in place.
fn reverse_nodes(v: &mut Vec<usize>)
    ensures
        final(v)@ == old(v)@.reverse(),
        final(v)@.len() == old(v)@.len(),
{
    let n: usize = v.len();
    let mut i: usize = 0;
    while i < n / 2
        invariant
            n == v.len(),
            n == old(v)@.len(),
            i <= n / 2,
            forall|j: int| 0 <= j < i ==> v@[j] == old(v)@[n - 1 - j],
            forall|j: int| 0 <= j < i ==> v@[n - 1 - j] == old(v)@[j],
            forall|j: int| i <= j < n - i ==> v@[j] == old(v)@[j],
        decreases n / 2 - i,
    {
        let a: usize = v[i];
        let b: usize = v[n - 1 - i];
        v[i] = b;
        v[n - 1 - i] = a;
        i += 1;
    }
    assert(v@ =~= old(v)@.reverse());
}

/// Relaxes every edge of `u` for one side, records a better meeting where a
/// relaxed node has been reached by the other side too, and closes `u`.
fn expand_side(
    graph: &Graph,
    u: usize,
    dist: &mut Vec<u32>,
    parent: &mut Vec<u32>,
    queue: &mut NodeQueue,
    other: &Vec<u32>,
    best: &mut u32,
    middle: &mut usize,
    Ghost(task): Ghost<Task>,
    Ghost(tr): Ghost<Trace>,
    Ghost(strict): Ghost<bool>,
    Ghost(own): Ghost<Seq<nat>>,
    Ghost(theirs): Ghost<Seq<nat>>,
    Ghost(clock): Ghost<nat>,
) -> (out: Ghost<(Trace, Seq<nat>, nat)>)
    requires
        task == side(graph, task.src),
        stamps_ok(old(dist)@, old(parent)@, task.src, own, clock),
        theirs.len() == graph.node_count(),
        forall|v: int| 0 <= v < theirs.len() ==> #[trigger] theirs[v] < clock,
        strict ==> first_met(old(dist)@, other@, own, theirs, *old(best), *old(middle)),
        old(queue).wf(),
        frontier_ok(graph, task, old(dist)@, old(parent)@, old(queue)@, tr, u as int),
        u < graph.node_count(),
        old(dist)@[u as int] < UNREACHED,
        other@.len() == graph.node_count(),
        meet_ok(old(dist)@, other@, *old(best), *old(middle), strict),
    ensures
        final(queue).wf(),
        frontier_ok(graph, task, final(dist)@, final(parent)@, final(queue)@, out@.0, -1),
        forall|v: int| out@.0.closed.contains(v) ==> tr.closed.contains(v) || v == u,
        stamps_ok(final(dist)@, final(parent)@, task.src, out@.1, out@.2),
        out@.2 >= clock,
        strict ==> first_met(final(dist)@, other@, out@.1, theirs, *final(best), *final(middle)),
        meet_ok(final(dist)@, other@, *final(best), *final(middle), strict),
        total(final(dist)@) <= total(old(dist)@),
        total(final(dist)@) == total(old(dist)@) ==> final(queue)@.len() == old(queue)@.len(),
        ({
            let after = expand(
                graph,
                graph.all_open(),
                no_estimates(graph.node_count()),
                other@,
                Side {
                    dist: old(dist)@,
                    parent: old(parent)@,
                    queue: old(queue)@,
                    best: *old(best),
                    middle: *old(middle),
                },
                u as int,
            );
            &&& final(dist)@ == after.dist
            &&& final(parent)@ == after.parent
            &&& final(queue)@ == after.queue
            &&& *final(best) == after.best
            &&& *final(middle) == after.middle
        }),
{
    let ghost n = graph.node_count();
    let ghost from = Side {
        dist: dist@,
        parent: parent@,
        queue: queue@,
        best: *best,
        middle: *middle,
    };
    let ghost mut tr = tr;
    let ghost mut own = own;
    let ghost clock0 = clock;
    let ghost mut clock = clock;
    let ghost closed0 = tr.closed;
    let ghost total0 = total(dist@);
    let ghost qlen0 = queue@.len();
    let first: usize = graph.offsets[u].0 as usize;
    let last: usize = graph.offsets[u + 1].0 as usize;
    let du: u32 = dist[u];
    let mut k: usize = first;
    proof {
        assert(graph.offsets@[u as int].0 <= graph.offsets@[u + 1].0);
        assert(graph.offsets@[u + 1].0 <= graph.offsets@[n].0);
    }
    while k < last
        invariant
            n == graph.node_count(),
            task == side(graph, task.src),
            u < n,
            first == graph.offsets@[u as int].0,
            last == graph.offsets@[u + 1].0,
            last <= graph.edges@.len(),
            first <= k <= last,
            queue.wf(),
            other@.len() == n,
            frontier_ok(graph, task, dist@, parent@, queue@, tr, u as int),
            scanned(graph, task, dist@, u as int, k as int),
            dist@[u as int] == du,
            du < UNREACHED,
            forall|v: int| tr.closed.contains(v) ==> closed0.contains(v),
            meet_ok(dist@, other@, *best, *middle, strict),
            stamps_ok(dist@, parent@, task.src, own, clock),
            clock >= clock0,
            theirs.len() == n,
            forall|v: int| 0 <= v < theirs.len() ==> #[trigger] theirs[v] < clock,
            strict ==> first_met(dist@, other@, own, theirs, *best, *middle),
            total(dist@) <= total0,
            total(dist@) == total0 ==> queue@.len() == qlen0,
            dist@ == relax_upto(
                graph,
                graph.all_open(),
                no_estimates(n),
                other@,
                from,
                u as int,
                k as int,
            ).dist,
            parent@ == relax_upto(
                graph,
                graph.all_open(),
                no_estimates(n),
                other@,
                from,
                u as int,
                k as int,
            ).parent,
            queue@ == relax_upto(
                graph,
                graph.all_open(),
                no_estimates(n),
                other@,
                from,
                u as int,
                k as int,
            ).queue,
            *best == relax_upto(
                graph,
                graph.all_open(),
                no_estimates(n),
                other@,
                from,
                u as int,
                k as int,
            ).best,
            *middle == relax_upto(
                graph,
                graph.all_open(),
                no_estimates(n),
                other@,
                from,
                u as int,
                k as int,
            ).middle,
        decreases last - k,
    {
        let edge = graph.edges[k];
        let dest: usize = edge.destination as usize;
        let reach: u64 = du as u64 + edge.distance as u64;
        if reach < dist[dest] as u64 {
            proof {
                broadcast use vstd::multiset::group_multiset_axioms;

                lemma_relaxed(
                    graph,
                    task,
                    dist@,
                    parent@,
                    queue@,
                    tr,
                    u as int,
                    k as int,
                    reach as u32,
                );
                lemma_total_update(dist@, dest as int, reach as u32);
                lemma_parents_below(graph, task, dist@, parent@, tr);
                tr = relaxed_trace(tr, u as int, k as int, dest as int, reach as u32);
            }
            let ghost dist0 = dist@;
            let ghost parent0 = parent@;
            let ghost best0 = *best;
            let ghost middle0 = *middle;
            queue.push(HeapNode { id: dest as u32, distance: reach as u32 });
            dist[dest] = reach as u32;
            parent[dest] = u as u32;
            if other[dest] != UNREACHED {
                let through: u64 = reach + other[dest] as u64;
                if through < *best as u64 {
                    *best = through as u32;
                    *middle = dest;
                }
            }
            proof {
                if strict {
                    assert forall|v: int| #[trigger] met(dist@, other@, v) implies *best <= dist@[v]
                        + other@[v] by {
                        if v != dest {
                            assert(met(dist0, other@, v));
                        }
                    }
                }
                lemma_stamp_relaxed(
                    dist0,
                    parent0,
                    task.src,
                    own,
                    other@,
                    theirs,
                    clock,
                    best0,
                    middle0,
                    strict,
                    u as u32,
                    dest as int,
                    reach as u32,
                    *best,
                    *middle,
                );
                own = own.update(dest as int, clock);
                clock = clock + 1;
            }
        } else {
            proof {
                lemma_skipped(graph, task, dist@, u as int, k as int);
            }
        }
        k += 1;
    }
    proof {
        lemma_closed(graph, task, dist@, parent@, queue@, tr, u as int);
        tr = closed_trace(tr, u as int);
    }
    Ghost((tr, own, clock))
}

/// The route through the meeting node `middle`: from `end` along the
/// parent pointers of the far side to `middle`, and on along those of the
/// near side to `start`. Returns the route and its length.
fn meeting_route(
    graph: &Graph,
    start: usize,
    end: usize,
    near_dist: &Vec<u32>,
    near_parent: &Vec<u32>,
    far_dist: &Vec<u32>,
    far_parent: &Vec<u32>,
    middle: usize,
    Ghost(best): Ghost<u32>,
    Ghost(tr1): Ghost<Trace>,
    Ghost(tr2): Ghost<Trace>,
    Ghost(near_stamps): Ghost<Seq<nat>>,
    Ghost(far_stamps): Ghost<Seq<nat>>,
    Ghost(clock): Ghost<nat>,
) -> (out: (Vec<usize>, u32))
    requires
        shape_ok(graph, side(graph, start as int), near_dist@, near_parent@, tr1),
        tree_ok(graph, side(graph, start as int), near_dist@, near_parent@, tr1),
        shape_ok(graph, side(graph, end as int), far_dist@, far_parent@, tr2),
        tree_ok(graph, side(graph, end as int), far_dist@, far_parent@, tr2),
        best < UNREACHED,
        meet_ok(near_dist@, far_dist@, best, middle, start != end),
        start == end ==> middle == start,
        stamps_ok(near_dist@, near_parent@, start as int, near_stamps, clock),
        stamps_ok(far_dist@, far_parent@, end as int, far_stamps, clock),
        start != end ==> first_met(near_dist@, far_dist@, near_stamps, far_stamps, best, middle),
    ensures
        out.1 == best,
        forall|i: int| 0 <= i < out.0@.len() ==> #[trigger] out.0@[i] < graph.node_count(),
        exists|back: Seq<usize>, on: Seq<usize>|
            {
                &&& #[trigger] is_parent_chain(far_parent@, back, middle as int, end as int)
                &&& #[trigger] is_parent_chain(near_parent@, on, middle as int, start as int)
                &&& out.0@ == back.reverse() + on.skip(1)
            },
        out.0@.no_duplicates(),
        start == end ==> out.0@ == seq![start],
        graph.is_undirected() ==> graph.is_route_within(
            graph.all_open(),
            out.0@,
            start as int,
            end as int,
            best as int,
        ),
{
    let ghost near = side(graph, start as int);
    let ghost far = side(graph, end as int);
    let mut nodes: Vec<usize> = Vec::new();
    nodes.push(middle);
    let far_steps = extend_to_root(
        far_dist,
        far_parent,
        middle,
        end,
        &mut nodes,
        Ghost(graph),
        Ghost(far),
        Ghost(tr2),
    );
    let ghost far_chain = nodes@.skip(1);
    proof {
        assert(nodes@ =~= seq![middle] + far_chain);
    }
    reverse_nodes(&mut nodes);
    let ghost turned = nodes@;
    let near_steps = extend_to_root(
        near_dist,
        near_parent,
        middle,
        start,
        &mut nodes,
        Ghost(graph),
        Ghost(near),
        Ghost(tr1),
    );
    let ghost near_chain = nodes@.skip(turned.len() as int);
    let d: u32 = near_dist[middle] + far_dist[middle];
    proof {
        assert(nodes@ =~= turned + near_chain);
        let back = seq![middle] + far_chain;
        let on = seq![middle] + near_chain;
        assert(on.skip(1) =~= near_chain);
        assert(is_parent_chain(far_parent@, back, middle as int, end as int));
        assert(is_parent_chain(near_parent@, on, middle as int, start as int));
        assert(nodes@ == back.reverse() + on.skip(1));
        assert forall|i: int| 0 <= i < nodes@.len() implies #[trigger] nodes@[i]
            < graph.node_count() by {
            if i < turned.len() {
                assert(nodes@[i] == back[back.len() - 1 - i]);
                if back.len() - 1 - i > 0 {
                    assert(back[back.len() - 1 - i] == far_chain[back.len() - 2 - i]);
                }
            }
        }
        if start == end {
            assert(far_chain =~= Seq::<usize>::empty());
            assert(near_chain =~= Seq::<usize>::empty());
            assert(nodes@ =~= seq![start]);
        } else {
            lemma_parents_below(graph, near, near_dist@, near_parent@, tr1);
            lemma_parents_below(graph, far, far_dist@, far_parent@, tr2);
            lemma_halves_apart(
                near_dist@,
                near_parent@,
                start as int,
                near_stamps,
                far_dist@,
                far_parent@,
                end as int,
                far_stamps,
                clock,
                best,
                middle,
                back,
                on,
            );
        }
        assert(nodes@.no_duplicates());
        if graph.is_undirected() {
            lemma_route_through(
                graph,
                start as int,
                end as int,
                middle,
                near_chain,
                far_chain,
                near_steps@,
                far_steps@,
                nodes@,
                d as int,
            );
        }
    }
    (nodes, d)
}

impl Graph {
    /// `result` is the whole result of the search from both ends between
    /// `start` and `end`: the route, the distance and the number of pops are
    /// those of the one course that the search takes, the route passes no
    /// node twice, and from a node to itself it is that node alone.
    pub open spec fn both_result_is(&self, start: int, end: int, result: PathResult) -> bool {
        &&& exists|rounds: nat| #[trigger] is_both_result(self, start, end, rounds, result)
        &&& self.path_is_simple(result)
        &&& (start == end ==> result.distance == Some(0u32) && result.heap_pops == 2 && (
        result.path matches Some(p) && p@ == seq![start as usize]))
    }

    /// Dijkstra's search run from `start` and from `end` in turn, one pop
    /// each a round, until the two frontiers cannot meet any closer. On an
    /// undirected graph it returns the shortest distance and a route of that
    /// length, or neither where `end` cannot be reached. A search from a
    /// node to itself has met at that node before the first round and
    /// returns after it, with the distance 0 and the node alone as route.
    /// The route passes no node twice: of the nodes at which the best
    /// distance is met, the search keeps the one that it came to first.
    ///
    /// The search from `end` follows the edges as they are stored, so on a
    /// graph that is not undirected the two halves need not make a route;
    /// what is returned is still fixed round by round.
    pub fn bi_dijkstra(&self, start: usize, end: usize, state: &mut AlgorithmState) -> (result:
        PathResult)
        requires
            self.wf(),
            start < self.node_count(),
            end < self.node_count(),
            old(state).sized_for(self.node_count()),
        ensures
            final(state).sized_for(self.node_count()),
            result.path.is_some() == result.distance.is_some(),
            self.path_in_graph(result),
            result.distance matches Some(d) ==> d < u32::MAX,
            self.is_undirected() ==> self.search_result_exact(
                self.all_open(),
                start as int,
                end as int,
                result,
            ),
            self.both_result_is(start as int, end as int, result),
    {
        let ghost n = self.node_count();
        let ghost near = side(self, start as int);
        let ghost far = side(self, end as int);
        state.reset();
        let mut best: u32 = UNREACHED;
        let mut middle: usize = 0;
        if start == end {
            best = 0;
            middle = start;
        }
        state.distances[start] = 0;
        state.queue.push(HeapNode { id: start as u32, distance: 0 });
        state.distances2[end] = 0;
        state.queue2.push(HeapNode { id: end as u32, distance: 0 });
        let mut heap_pops: usize = 0;
        let ghost mut tr1 = start_trace(n, start as int);
        let ghost mut tr2 = start_trace(n, end as int);
        let ghost mut rounds: nat = 0;
        let ghost mut near_stamps: Seq<nat> = Seq::new(n as nat, |v: int| 0nat);
        let ghost mut far_stamps: Seq<nat> = Seq::new(n as nat, |v: int| 0nat);
        let ghost mut clock: nat = 1;
        proof {
            broadcast use vstd::multiset::group_multiset_axioms;

            lemma_start(self, near, state.distances@, state.parent_nodes@, state.queue@);
            lemma_start(self, far, state.distances2@, state.parent_nodes2@, state.queue2@);
            let b = both_after(self, start as int, end as int, 0);
            assert(state.distances@ =~= b.near.dist);
            assert(state.parent_nodes@ =~= b.near.parent);
            assert(state.queue@ =~= b.near.queue);
            assert(state.distances2@ =~= b.far.dist);
            assert(state.parent_nodes2@ =~= b.far.parent);
            assert(state.queue2@ =~= b.far.queue);
            if start != end {
                assert forall|v: int| #[trigger]
                    met(state.distances@, state.distances2@, v) implies best
                    <= state.distances@[v] + state.distances2@[v] by {
                    if v == start {
                    } else {
                    }
                }
            }
        }
        loop
            invariant
                self.wf(),
                n == self.node_count(),
                near == side(self, start as int),
                far == side(self, end as int),
                start < n,
                end < n,
                state.sized_for(n),
                state.queue.wf(),
                state.queue2.wf(),
                frontier_ok(
                    self,
                    near,
                    state.distances@,
                    state.parent_nodes@,
                    state.queue@,
                    tr1,
                    -1,
                ),
                frontier_ok(
                    self,
                    far,
                    state.distances2@,
                    state.parent_nodes2@,
                    state.queue2@,
                    tr2,
                    -1,
                ),
                meet_ok(state.distances@, state.distances2@, best, middle, start != end),
                stamps_ok(
                    state.distances@,
                    state.parent_nodes@,
                    start as int,
                    near_stamps,
                    clock,
                ),
                stamps_ok(
                    state.distances2@,
                    state.parent_nodes2@,
                    end as int,
                    far_stamps,
                    clock,
                ),
                start != end ==> first_met(
                    state.distances@,
                    state.distances2@,
                    near_stamps,
                    far_stamps,
                    best,
                    middle,
                ),
                start != end ==> !tr1.closed.contains(end as int) && !tr2.closed.contains(
                    start as int,
                ),
                rounds == 0 ==> state.queue@.len() > 0 && state.queue2@.len() > 0,
                heap_pops == capped_count(2 * (rounds as int)),
                start == end ==> rounds == 0,
                state.distances@ == both_after(self, start as int, end as int, rounds).near.dist,
                state.parent_nodes@ == both_after(
                    self,
                    start as int,
                    end as int,
                    rounds,
                ).near.parent,
                state.queue@ == both_after(self, start as int, end as int, rounds).near.queue,
                state.distances2@ == both_after(self, start as int, end as int, rounds).far.dist,
                state.parent_nodes2@ == both_after(
                    self,
                    start as int,
                    end as int,
                    rounds,
                ).far.parent,
                state.queue2@ == both_after(self, start as int, end as int, rounds).far.queue,
                best == both_after(self, start as int, end as int, rounds).far.best,
                middle == both_after(self, start as int, end as int, rounds).far.middle,
                forall|i: nat|
                    i < rounds ==> !both_stop(
                        #[trigger] both_after(self, start as int, end as int, i),
                    ),
            decreases total(state.distances@) + total(state.distances2@), state.queue@.len(),
        {
            let ghost b = both_after(self, start as int, end as int, rounds);
            let ghost q1 = state.queue@;
            let ghost q2 = state.queue2@;
            let ghost total1 = total(state.distances@);
            let ghost total2 = total(state.distances2@);
            proof {
                lemma_total_nonnegative(state.distances@);
                lemma_total_nonnegative(state.distances2@);
            }
            let popped1 = state.queue.pop();
            let node1 = match popped1 {
                None => {
                    proof {
                        if start != end {
                            lemma_exhausted(
                                self,
                                near,
                                state.distances@,
                                state.parent_nodes@,
                                q1,
                                tr1,
                                end as int,
                            );
                        }
                    }
                    let result = PathResult { path: None, distance: None, heap_pops };
                    proof {
                        if start != end {
                            lemma_settle(
                                self,
                                self.all_open(),
                                start as int,
                                end as int,
                                result,
                                true,
                            );
                        }
                        assert(is_both_result(self, start as int, end as int, rounds, result));
                    }
                    return result;
                },
                Some(node) => node,
            };
            let popped2 = state.queue2.pop();
            let node2 = match popped2 {
                None => {
                    let result = PathResult { path: None, distance: None, heap_pops };
                    proof {
                        if start != end && self.is_undirected() {
                            lemma_exhausted(
                                self,
                                far,
                                state.distances2@,
                                state.parent_nodes2@,
                                q2,
                                tr2,
                                start as int,
                            );
                            lemma_bound_reversed(self, end as int, start as int, UNREACHED as int);
                            lemma_none_settles(self, start as int, end as int, result);
                        }
                        assert(is_both_result(self, start as int, end as int, rounds, result));
                    }
                    return result;
                },
                Some(node) => node,
            };
            proof {
                broadcast use vstd::multiset::group_multiset_axioms;

                lemma_popped(self, near, state.distances@, state.parent_nodes@, q1, tr1, node1);
                lemma_popped(self, far, state.distances2@, state.parent_nodes2@, q2, tr2, node2);
                lemma_first_entry(q1, node1);
                lemma_first_entry(q2, node2);
                vstd::multiset::axiom_count_le_len(q1, node1);
                vstd::multiset::axiom_count_le_len(q2, node2);
            }
            heap_pops = count_pops(heap_pops, 2);
            let u1: usize = node1.id as usize;
            let u2: usize = node2.id as usize;
            if state.distances[u1] as u64 + state.distances2[u2] as u64 >= best as u64 {
                proof {
                    if start != end && self.is_undirected() {
                        lemma_meeting_bound(
                            self,
                            start as int,
                            end as int,
                            state.distances@,
                            state.parent_nodes@,
                            q1,
                            tr1,
                            node1,
                            state.distances2@,
                            state.parent_nodes2@,
                            q2,
                            tr2,
                            node2,
                            best,
                            middle,
                        );
                    }
                }
                proof {
                    assert(both_meet(b));
                }
                if best == UNREACHED {
                    let result = PathResult { path: None, distance: None, heap_pops };
                    proof {
                        if start != end && self.is_undirected() {
                            lemma_none_settles(self, start as int, end as int, result);
                        }
                        assert(is_both_result(self, start as int, end as int, rounds, result));
                    }
                    return result;
                }
                let (nodes, d) = meeting_route(
                    self,
                    start,
                    end,
                    &state.distances,
                    &state.parent_nodes,
                    &state.distances2,
                    &state.parent_nodes2,
                    middle,
                    Ghost(best),
                    Ghost(tr1),
                    Ghost(tr2),
                    Ghost(near_stamps),
                    Ghost(far_stamps),
                    Ghost(clock),
                );
                let ghost route = nodes@;
                let result = PathResult { path: Some(nodes), distance: Some(d), heap_pops };
                proof {
                    assert(is_meeting_path(b, route, start as int, end as int));
                    assert(is_both_result(self, start as int, end as int, rounds, result));
                    if start == end {
                        lemma_same_node_settles(self, start as int, result);
                    } else if self.is_undirected() {
                        assert(search_outcome(
                            self,
                            self.all_open(),
                            start as int,
                            end as int,
                            result,
                            true,
                        ));
                        lemma_settle(self, self.all_open(), start as int, end as int, result, true);
                    }
                }
                return result;
            }
            proof {
                if start != end {
                    if u1 == end {
                        assert(met(state.distances@, state.distances2@, end as int));
                    }
                    if u2 == start {
                        assert(met(state.distances@, state.distances2@, start as int));
                    }
                }
                lemma_meet_swap(state.distances@, state.distances2@, best, middle, start != end);
                if start != end {
                    lemma_first_met_swap(
                        state.distances@,
                        state.distances2@,
                        near_stamps,
                        far_stamps,
                        best,
                        middle,
                    );
                    lemma_first_met_swap(
                        state.distances2@,
                        state.distances@,
                        far_stamps,
                        near_stamps,
                        best,
                        middle,
                    );
                }
                assert(!both_stop(b));
                assert(state.queue@ == popped(b.near).queue);
                assert(state.queue2@ == popped(b.far).queue);
            }
            let out1 = expand_side(
                self,
                u1,
                &mut state.distances,
                &mut state.parent_nodes,
                &mut state.queue,
                &state.distances2,
                &mut best,
                &mut middle,
                Ghost(near),
                Ghost(tr1),
                Ghost(start != end),
                Ghost(near_stamps),
                Ghost(far_stamps),
                Ghost(clock),
            );
            proof {
                tr1 = out1@.0;
                near_stamps = out1@.1;
                clock = out1@.2;
                lemma_meet_swap(state.distances@, state.distances2@, best, middle, start != end);
                if start != end {
                    lemma_first_met_swap(
                        state.distances@,
                        state.distances2@,
                        near_stamps,
                        far_stamps,
                        best,
                        middle,
                    );
                }
            }
            let out2 = expand_side(
                self,
                u2,
                &mut state.distances2,
                &mut state.parent_nodes2,
                &mut state.queue2,
                &state.distances,
                &mut best,
                &mut middle,
                Ghost(far),
                Ghost(tr2),
                Ghost(start != end),
                Ghost(far_stamps),
                Ghost(near_stamps),
                Ghost(clock),
            );
            proof {
                tr2 = out2@.0;
                far_stamps = out2@.1;
                clock = out2@.2;
                lemma_meet_swap(state.distances2@, state.distances@, best, middle, start != end);
                if start != end {
                    lemma_first_met_swap(
                        state.distances2@,
                        state.distances@,
                        far_stamps,
                        near_stamps,
                        best,
                        middle,
                    );
                }
                lemma_total_nonnegative(state.distances@);
                lemma_total_nonnegative(state.distances2@);
                let next = both_after(self, start as int, end as int, rounds + 1);
                assert(next == both_round(self, b));
                assert forall|i: nat| i < rounds + 1 implies !both_stop(
                    #[trigger] both_after(self, start as int, end as int, i),
                ) by {
                    if i == rounds {
                    }
                }
                rounds = rounds + 1;
            }
        }
    }
}

/// In an undirected graph a lower bound for the walks one way is a lower
/// bound for the walks the other way.
pub proof fn lemma_bound_reversed(g: &Graph, s: int, t: int, d: int)
    requires
        g.wf(),
        g.is_undirected(),
        g.bounds_below(g.all_open(), s, t, d),
    ensures
        g.bounds_below(g.all_open(), t, s, d),
{
    assert forall|nodes: Seq<int>, steps: Seq<int>|
        #[trigger] g.is_walk(g.all_open(), nodes, steps) && nodes[0] == t && nodes.last()
            == s implies d <= g.walk_weight(steps) by {
        g.lemma_walk_reversed(nodes, steps);
        assert(g.is_walk(g.all_open(), nodes.reverse(), g.reversed_steps(nodes, steps)));
    }
}

/// The search from a node to itself that returns the node alone and the
/// distance 0 returns the shortest route.
proof fn lemma_same_node_settles(g: &Graph, s: int, result: PathResult)
    requires
        g.wf(),
        0 <= s < g.node_count(),
        result.distance == Some(0u32),
        result.heap_pops >= 1,
        result.path matches Some(p) && p@ == seq![s as usize],
    ensures
        g.search_result_exact(g.all_open(), s, s, result),
{
    let open = g.all_open();
    let p = result.path->0;
    g.lemma_walk_trivial(open, s);
    assert(as_ints(p@).reverse() =~= seq![s]);
    assert(g.is_walk(open, as_ints(p@).reverse(), Seq::<int>::empty()));
    assert(g.is_route_within(open, p@, s, s, 0));
    assert(g.path_in_graph(result));
    assert(g.bounds_below(open, s, s, 0)) by {
        assert forall|nodes: Seq<int>, steps: Seq<int>|
            #[trigger] g.is_walk(open, nodes, steps) && nodes[0] == s && nodes.last()
                == s implies 0 <= g.walk_weight(steps) by {
            g.lemma_weight_nonnegative(steps);
        }
    }
    lemma_settle(g, open, s, s, result, true);
}

proof fn lemma_none_settles(g: &Graph, s: int, t: int, result: PathResult)
    requires
        result.path is None,
        result.distance is None,
        result.heap_pops >= 1,
        g.bounds_below(g.all_open(), s, t, UNREACHED as int),
    ensures
        g.search_result_exact(g.all_open(), s, t, result),
{
    lemma_settle(g, g.all_open(), s, t, result, true);
}

} // verus!
