//! What holds across the search variants and of the shortest distance itself.

use crate::bidirectional::lemma_bound_reversed;
use crate::execution::ExecutionType;
use crate::graph::{as_ints, Edge, Graph};
use crate::overlay::{extras_for, Shortcut};
use crate::heap_node::HeapNode;
use crate::rounds::{
    both_after, both_meet, both_stop, is_both_result, is_parent_chain,
    is_search_result, lemma_parent_chain_unique, lemma_single_entry, relax_upto, search_after,
    search_stops,
};
use crate::search::PathResult;
use vstd::prelude::*;

verus! {

impl Graph {
    /// A walk that keeps to some open nodes is a walk when every node is open.
    pub proof fn lemma_walk_in_full_graph(&self, open: Seq<bool>, nodes: Seq<int>, steps: Seq<int>)
        requires
            self.wf(),
            self.is_walk(open, nodes, steps),
        ensures
            self.is_walk(self.all_open(), nodes, steps),
    {
        assert forall|i: int| 0 <= i < steps.len() implies {
            &&& self.leaves(#[trigger] steps[i], nodes[i])
            &&& self.target(steps[i]) == nodes[i + 1]
            &&& self.all_open()[nodes[i + 1]]
        } by {
            assert(self.leaves(steps[i], nodes[i]));
            self.lemma_edge_in_range(steps[i], nodes[i]);
        }
    }

    /// The shortest distance, where there is one, is the length of a shortest
    /// walk and stays below the "unreached" value.
    pub proof fn lemma_distance_is_shortest(&self, open: Seq<bool>, s: int, t: int)
        requires
            self.shortest_distance(open, s, t).is_some(),
        ensures
            self.is_shortest(open, s, t, self.shortest_distance(open, s, t).unwrap()),
            0 <= self.shortest_distance(open, s, t).unwrap() < u32::MAX,
    {
        let d = self.shortest_distance(open, s, t).unwrap();
        let (nodes, steps) = choose|nodes: Seq<int>, steps: Seq<int>|
            {
                &&& #[trigger] self.is_walk(open, nodes, steps)
                &&& nodes[0] == s
                &&& nodes.last() == t
                &&& self.walk_weight(steps) == d
            };
        self.lemma_weight_nonnegative(steps);
    }

    /// In an undirected graph the shortest distance from `s` to `t` is the
    /// shortest distance from `t` to `s`.
    pub proof fn lemma_distance_symmetric(&self, s: int, t: int)
        requires
            self.wf(),
            self.is_undirected(),
        ensures
            self.shortest_distance(self.all_open(), s, t) == self.shortest_distance(
                self.all_open(),
                t,
                s,
            ),
    {
        let open = self.all_open();
        if self.shortest_distance(open, s, t).is_some() {
            self.lemma_distance_is_shortest(open, s, t);
            let d = self.shortest_distance(open, s, t).unwrap();
            self.lemma_shortest_reversed(s, t, d);
            self.lemma_shortest_is_distance(open, t, s, d);
        } else if self.shortest_distance(open, t, s).is_some() {
            self.lemma_distance_is_shortest(open, t, s);
            let d = self.shortest_distance(open, t, s).unwrap();
            self.lemma_shortest_reversed(t, s, d);
            self.lemma_shortest_is_distance(open, s, t, d);
        }
    }

    /// In an undirected graph a shortest walk one way is as long as a
    /// shortest walk the other way.
    pub proof fn lemma_shortest_reversed(&self, s: int, t: int, d: int)
        requires
            self.wf(),
            self.is_undirected(),
            self.is_shortest(self.all_open(), s, t, d),
        ensures
            self.is_shortest(self.all_open(), t, s, d),
    {
        let open = self.all_open();
        let (nodes, steps) = choose|nodes: Seq<int>, steps: Seq<int>|
            {
                &&& #[trigger] self.is_walk(open, nodes, steps)
                &&& nodes[0] == s
                &&& nodes.last() == t
                &&& self.walk_weight(steps) == d
            };
        self.lemma_walk_reversed(nodes, steps);
        assert(self.is_walk(open, nodes.reverse(), self.reversed_steps(nodes, steps)));
        lemma_bound_reversed(self, s, t, d);
    }

    /// The shortest distance obeys the triangle inequality: going from `u` to
    /// `w` is never longer than going by way of `v`.
    pub proof fn lemma_triangle_inequality(&self, open: Seq<bool>, u: int, v: int, w: int)
        requires
            self.wf(),
            self.shortest_distance(open, u, v).is_some(),
            self.shortest_distance(open, v, w).is_some(),
            self.shortest_distance(open, u, v).unwrap() + self.shortest_distance(open, v, w).unwrap()
                < u32::MAX,
        ensures
            self.shortest_distance(open, u, w) matches Some(direct) && direct
                <= self.shortest_distance(open, u, v).unwrap() + self.shortest_distance(
                open,
                v,
                w,
            ).unwrap(),
    {
        self.lemma_distance_is_shortest(open, u, v);
        self.lemma_distance_is_shortest(open, v, w);
        let a = self.shortest_distance(open, u, v).unwrap();
        let b = self.shortest_distance(open, v, w).unwrap();
        let (nodes1, steps1) = choose|nodes: Seq<int>, steps: Seq<int>|
            {
                &&& #[trigger] self.is_walk(open, nodes, steps)
                &&& nodes[0] == u
                &&& nodes.last() == v
                &&& self.walk_weight(steps) == a
            };
        let (nodes2, steps2) = choose|nodes: Seq<int>, steps: Seq<int>|
            {
                &&& #[trigger] self.is_walk(open, nodes, steps)
                &&& nodes[0] == v
                &&& nodes.last() == w
                &&& self.walk_weight(steps) == b
            };
        self.lemma_walk_join(open, nodes1, steps1, nodes2, steps2);
        assert(self.is_walk(open, nodes1 + nodes2.skip(1), steps1 + steps2));
        assert(self.connects(open, u, w, a + b));
        let m = self.lemma_shortest_exists(open, u, w, a + b);
        self.lemma_shortest_is_distance(open, u, w, m);
    }

    /// Three consecutive nodes of a route obey the triangle inequality of
    /// the shortest distance.
    pub proof fn lemma_triangle_on_route(
        &self,
        open: Seq<bool>,
        path: Seq<usize>,
        s: int,
        t: int,
        d: int,
        i: int,
    )
        requires
            self.wf(),
            self.is_route_within(open, path, s, t, d),
            d < u32::MAX,
            0 <= i,
            i + 2 < path.len(),
        ensures
            ({
                let from = path[i + 2] as int;
                let by = path[i + 1] as int;
                let to = path[i] as int;
                &&& self.shortest_distance(open, from, by).is_some()
                &&& self.shortest_distance(open, by, to).is_some()
                &&& self.shortest_distance(open, from, to) matches Some(direct) && direct
                    <= self.shortest_distance(open, from, by).unwrap() + self.shortest_distance(
                    open,
                    by,
                    to,
                ).unwrap()
            }),
    {
        let steps = choose|steps: Seq<int>| #[trigger]
            self.is_walk(open, as_ints(path).reverse(), steps) && self.walk_weight(steps) <= d;
        let nodes = as_ints(path).reverse();
        let m = steps.len() as int;
        let j = m - 2 - i;
        let from = path[i + 2] as int;
        let by = path[i + 1] as int;
        let to = path[i] as int;
        assert(nodes[j] == from);
        assert(nodes[j + 1] == by);
        assert(nodes[j + 2] == to);
        assert(self.leaves(steps[j], nodes[j]));
        assert(self.leaves(steps[j + 1], nodes[j + 1]));
        self.lemma_walk_nodes_in_range(open, nodes, steps, j);
        self.lemma_edge_in_range(steps[j], from);
        self.lemma_edge_in_range(steps[j + 1], by);
        self.lemma_weight_single(steps[j]);
        self.lemma_weight_single(steps[j + 1]);
        let first = seq![steps[j]];
        let second = seq![steps[j + 1]];
        assert(self.is_walk(open, seq![from, by], first));
        assert(self.is_walk(open, seq![by, to], second));
        assert(seq![from, by].last() == by);
        assert(seq![by, to].last() == to);
        // Both edges lie on the route, so together they are no longer than it.
        self.lemma_walk_split(open, nodes, steps, j);
        self.lemma_walk_split(open, nodes.skip(j), steps.skip(j), 2);
        self.lemma_weight_nonnegative(steps.take(j));
        self.lemma_weight_nonnegative(steps.skip(j).skip(2));
        assert(steps.skip(j).take(2) =~= first + second);
        self.lemma_weight_concat(first, second);
        assert(self.weight(steps[j]) + self.weight(steps[j + 1]) <= d);
        let a = self.lemma_shortest_exists(open, from, by, self.weight(steps[j]));
        let b = self.lemma_shortest_exists(open, by, to, self.weight(steps[j + 1]));
        self.lemma_shortest_is_distance(open, from, by, a);
        self.lemma_shortest_is_distance(open, by, to, b);
        self.lemma_triangle_inequality(open, from, by, to);
    }
}

/// Dijkstra's search, A* with a consistent estimate and the search from
/// both ends report the same distance between two nodes of an undirected
/// graph, or all report none.
pub proof fn lemma_variants_agree(
    g: &Graph,
    start: int,
    end: int,
    heuristic: Seq<u32>,
    by_dijkstra: PathResult,
    by_a_star: PathResult,
    by_bi_dijkstra: PathResult,
)
    requires
        g.is_undirected(),
        g.consistent(g.all_open(), heuristic, end),
        g.search_result_exact(g.all_open(), start, end, by_dijkstra),
        g.search_result_ok(g.all_open(), start, end, by_a_star),
        g.consistent(g.all_open(), heuristic, end) ==> g.search_result_exact(
            g.all_open(),
            start,
            end,
            by_a_star,
        ),
        g.is_undirected() ==> g.search_result_exact(g.all_open(), start, end, by_bi_dijkstra),
    ensures
        by_dijkstra.distance == by_a_star.distance,
        by_dijkstra.distance == by_bi_dijkstra.distance,
{
}

/// A search that may enter only the nodes `open` never reports less than
/// the shortest distance of the whole graph, and where it finds a route the
/// whole graph has one too.
pub proof fn lemma_pruned_not_shorter(
    g: &Graph,
    open: Seq<bool>,
    start: int,
    end: int,
    pruned: PathResult,
)
    requires
        g.wf(),
        g.search_result_ok(open, start, end, pruned),
    ensures
        pruned.distance matches Some(d) ==> g.shortest_distance(g.all_open(), start, end) matches Some(
            best,
        ) && best <= d,
{
    if let Some(d) = pruned.distance {
        let p = pruned.path->0;
        let steps = choose|steps: Seq<int>| #[trigger]
            g.is_walk(open, as_ints(p@).reverse(), steps) && g.walk_weight(steps) <= d;
        g.lemma_walk_in_full_graph(open, as_ints(p@).reverse(), steps);
        assert(g.is_route_within(g.all_open(), p@, start, end, d as int));
        g.lemma_route_gives_distance(g.all_open(), p@, start, end, d as int);
    }
}

/// A search that keeps out of rectangle interiors, run on an overlay whose
/// shortcuts are as long as the shortest walks, never reports less than the
/// shortest distance of the graph that the overlay was built from.
pub proof fn lemma_shortcut_search_not_shorter(
    base: &Graph,
    rects: Seq<(usize, usize, usize, usize)>,
    shortcuts: Seq<Shortcut>,
    overlay: Graph,
    start: int,
    end: int,
    pruned: PathResult,
)
    requires
        base.wf(),
        base.is_undirected(),
        base.is_overlay(rects, shortcuts, overlay),
        shortcuts_are_shortest(base, shortcuts),
        overlay.search_result_ok(
            overlay.open_around(start, end),
            start,
            end,
            pruned,
        ),
    ensures
        pruned.distance matches Some(d) ==> base.shortest_distance(base.all_open(), start, end) matches Some(
            best,
        ) && best <= d,
{
    lemma_pruned_not_shorter(&overlay, overlay.open_around(start, end), start, end, pruned);
    base.lemma_overlay_keeps_distances(rects, shortcuts, overlay, start, end);
}

/// On an undirected graph, searching from `s` to `t` and from `t` to `s`
/// reports the same distance.
pub proof fn lemma_search_symmetric(g: &Graph, s: int, t: int, there: PathResult, back: PathResult)
    requires
        g.wf(),
        g.is_undirected(),
        g.search_result_exact(g.all_open(), s, t, there),
        g.search_result_exact(g.all_open(), t, s, back),
    ensures
        there.distance == back.distance,
{
    g.lemma_distance_symmetric(s, t);
}

/// Every shortcut lies between two nodes and is as long as the shortest walk
/// between them.
pub open spec fn shortcuts_are_shortest(base: &Graph, shortcuts: Seq<Shortcut>) -> bool {
    forall|k: int|
        0 <= k < shortcuts.len() ==> {
            let sc = #[trigger] shortcuts[k];
            &&& sc.from < base.node_count()
            &&& sc.to < base.node_count()
            &&& base.is_shortest(base.all_open(), sc.from as int, sc.to as int, sc.distance as int)
        }
}

/// An edge that shortcuts add to node `i` belongs to a shortcut that begins
/// or ends at `i`.
proof fn lemma_extra_has_shortcut(shortcuts: Seq<Shortcut>, i: int, edge: Edge) -> (k: int)
    requires
        extras_for(shortcuts, i).contains(edge),
    ensures
        0 <= k < shortcuts.len(),
        (shortcuts[k].from == i && edge == Edge {
            destination: shortcuts[k].to as u32,
            distance: shortcuts[k].distance,
        }) || (shortcuts[k].to == i && edge == Edge {
            destination: shortcuts[k].from as u32,
            distance: shortcuts[k].distance,
        }),
    decreases shortcuts.len(),
{
    let at = choose|at: int|
        0 <= at < extras_for(shortcuts, i).len() && extras_for(shortcuts, i)[at] == edge;
    if shortcuts.len() == 0 {
        0
    } else {
        let rest = extras_for(shortcuts.drop_last(), i);
        if at < rest.len() {
            assert(rest[at] == edge);
            lemma_extra_has_shortcut(shortcuts.drop_last(), i, edge)
        } else {
            shortcuts.len() - 1
        }
    }
}

impl Graph {
    /// A single edge is a walk.
    pub proof fn lemma_edge_is_walk(&self, k: int, u: int)
        requires
            self.wf(),
            self.leaves(k, u),
        ensures
            self.connects(self.all_open(), u, self.target(k), self.weight(k)),
    {
        self.lemma_edge_in_range(k, u);
        self.lemma_weight_single(k);
        let nodes = seq![u, self.target(k)];
        let steps = seq![k];
        assert(self.is_walk(self.all_open(), nodes, steps));
        assert(nodes.last() == self.target(k));
    }

    /// Two walks that meet make a walk as long as both.
    pub proof fn lemma_connects_join(&self, open: Seq<bool>, s: int, m: int, t: int, a: int, b: int)
        requires
            self.connects(open, s, m, a),
            self.connects(open, m, t, b),
        ensures
            self.connects(open, s, t, a + b),
    {
        let (nodes1, steps1) = choose|nodes: Seq<int>, steps: Seq<int>|
            {
                &&& #[trigger] self.is_walk(open, nodes, steps)
                &&& nodes[0] == s
                &&& nodes.last() == m
                &&& self.walk_weight(steps) == a
            };
        let (nodes2, steps2) = choose|nodes: Seq<int>, steps: Seq<int>|
            {
                &&& #[trigger] self.is_walk(open, nodes, steps)
                &&& nodes[0] == m
                &&& nodes.last() == t
                &&& self.walk_weight(steps) == b
            };
        self.lemma_walk_join(open, nodes1, steps1, nodes2, steps2);
        assert(self.is_walk(open, nodes1 + nodes2.skip(1), steps1 + steps2));
    }

    /// In an undirected graph, where a walk leads there a walk of the same
    /// length leads back.
    pub proof fn lemma_connects_back(&self, s: int, t: int, d: int)
        requires
            self.wf(),
            self.is_undirected(),
            self.connects(self.all_open(), s, t, d),
        ensures
            self.connects(self.all_open(), t, s, d),
    {
        let (nodes, steps) = choose|nodes: Seq<int>, steps: Seq<int>|
            {
                &&& #[trigger] self.is_walk(self.all_open(), nodes, steps)
                &&& nodes[0] == s
                &&& nodes.last() == t
                &&& self.walk_weight(steps) == d
            };
        self.lemma_walk_reversed(nodes, steps);
        assert(self.is_walk(self.all_open(), nodes.reverse(), self.reversed_steps(nodes, steps)));
    }

    /// Every edge of an overlay is an edge of the graph it was built from
    /// or stands for a walk of its length there.
    #[verifier::rlimit(40)]
    proof fn lemma_overlay_edge_in_base(
        &self,
        rects: Seq<(usize, usize, usize, usize)>,
        shortcuts: Seq<Shortcut>,
        overlay: Graph,
        u: int,
        k: int,
    )
        requires
            self.wf(),
            self.is_undirected(),
            self.is_overlay(rects, shortcuts, overlay),
            shortcuts_are_shortest(self, shortcuts),
            overlay.leaves(k, u),
        ensures
            self.connects(self.all_open(), u, overlay.target(k), overlay.weight(k)),
    {
        broadcast use vstd::seq_lib::group_to_multiset_ensures;

        overlay.lemma_edge_in_range(k, u);
        let edge = overlay.edges@[k];
        let n = self.node_count();
        assert(overlay.offsets@[u].0 <= overlay.offsets@[u + 1].0);
        assert(overlay.offsets@[u + 1].0 <= overlay.offsets@[n].0);
        assert(self.offsets@[u].0 <= self.offsets@[u + 1].0);
        assert(self.offsets@[u + 1].0 <= self.offsets@[n].0);
        let p = k - overlay.offsets@[u].0;
        assert(overlay.adjacency(u)[p] == edge);
        assert(overlay.adjacency(u).contains(edge));
        assert(overlay.adjacency(u).to_multiset().count(edge) > 0);
        let all = self.merged(shortcuts, u);
        assert(all.to_multiset().count(edge) > 0);
        assert(all.contains(edge));
        let m = choose|m: int| 0 <= m < all.len() && all[m] == edge;
        let own = self.adjacency(u);
        if m < own.len() {
            let home = self.offsets@[u].0 + m;
            assert(self.edges@[home] == edge);
            self.lemma_edge_is_walk(home, u);
        } else {
            let extras = extras_for(shortcuts, u);
            assert(extras[m - own.len()] == edge);
            assert(extras.contains(edge));
            let at = lemma_extra_has_shortcut(shortcuts, u, edge);
            let sc = shortcuts[at];
            assert(self.is_shortest(self.all_open(), sc.from as int, sc.to as int, sc.distance as int));
            if sc.from == u && edge == (Edge { destination: sc.to as u32, distance: sc.distance }) {
            } else {
                self.lemma_connects_back(sc.from as int, sc.to as int, sc.distance as int);
            }
        }
    }

    /// Every walk in an overlay has a walk of its length between the same
    /// nodes in the graph it was built from.
    proof fn lemma_overlay_walk_in_base(
        &self,
        rects: Seq<(usize, usize, usize, usize)>,
        shortcuts: Seq<Shortcut>,
        overlay: Graph,
        nodes: Seq<int>,
        steps: Seq<int>,
    )
        requires
            self.wf(),
            self.is_undirected(),
            self.is_overlay(rects, shortcuts, overlay),
            shortcuts_are_shortest(self, shortcuts),
            overlay.is_walk(overlay.all_open(), nodes, steps),
        ensures
            self.connects(self.all_open(), nodes[0], nodes.last(), overlay.walk_weight(steps)),
        decreases steps.len(),
    {
        if steps.len() == 0 {
            self.lemma_walk_trivial(self.all_open(), nodes[0]);
        } else {
            let m = steps.len() as int;
            overlay.lemma_walk_split(overlay.all_open(), nodes, steps, m - 1);
            assert(nodes.take(m) =~= nodes.drop_last());
            assert(steps.take(m - 1) =~= steps.drop_last());
            self.lemma_overlay_walk_in_base(
                rects,
                shortcuts,
                overlay,
                nodes.drop_last(),
                steps.drop_last(),
            );
            assert(overlay.leaves(steps[m - 1], nodes[m - 1]));
            self.lemma_overlay_edge_in_base(rects, shortcuts, overlay, nodes[m - 1], steps[m - 1]);
            self.lemma_connects_join(
                self.all_open(),
                nodes[0],
                nodes[m - 1],
                nodes[m],
                overlay.walk_weight(steps.drop_last()),
                overlay.weight(steps[m - 1]),
            );
        }
    }

    /// A consistent estimate is no greater at the start of a walk than the
    /// length of the walk and the estimate at its end.
    pub proof fn lemma_estimate_along_walk(
        &self,
        h: Seq<u32>,
        end: int,
        nodes: Seq<int>,
        steps: Seq<int>,
    )
        requires
            self.wf(),
            self.consistent(self.all_open(), h, end),
            self.is_walk(self.all_open(), nodes, steps),
        ensures
            h[nodes[0]] <= self.walk_weight(steps) + h[nodes.last()],
        decreases steps.len(),
    {
        if steps.len() > 0 {
            let m = steps.len() as int;
            self.lemma_walk_split(self.all_open(), nodes, steps, m - 1);
            assert(nodes.take(m) =~= nodes.drop_last());
            assert(steps.take(m - 1) =~= steps.drop_last());
            self.lemma_estimate_along_walk(h, end, nodes.drop_last(), steps.drop_last());
            assert(self.leaves(steps[m - 1], nodes[m - 1]));
            self.lemma_edge_in_range(steps[m - 1], nodes[m - 1]);
        }
    }

    /// An estimate that is consistent on a graph is consistent on its
    /// overlay: a shortcut is as long as a walk of the graph.
    pub proof fn lemma_estimate_fits_overlay(
        &self,
        rects: Seq<(usize, usize, usize, usize)>,
        shortcuts: Seq<Shortcut>,
        overlay: Graph,
        h: Seq<u32>,
        end: int,
        open: Seq<bool>,
    )
        requires
            self.wf(),
            self.is_undirected(),
            self.is_overlay(rects, shortcuts, overlay),
            shortcuts_are_shortest(self, shortcuts),
            self.consistent(self.all_open(), h, end),
        ensures
            overlay.consistent(open, h, end),
    {
        assert forall|u: int, k: int| #[trigger]
            overlay.leaves(k, u) && open[overlay.target(k)] implies h[u] <= overlay.weight(k)
            + h[overlay.target(k)] by {
            self.lemma_overlay_edge_in_base(rects, shortcuts, overlay, u, k);
            let (nodes, steps) = choose|nodes: Seq<int>, steps: Seq<int>|
                {
                    &&& #[trigger] self.is_walk(self.all_open(), nodes, steps)
                    &&& nodes[0] == u
                    &&& nodes.last() == overlay.target(k)
                    &&& self.walk_weight(steps) == overlay.weight(k)
                };
            self.lemma_estimate_along_walk(h, end, nodes, steps);
        }
    }

    /// Every edge of a graph is an edge of its overlay.
    #[verifier::rlimit(40)]
    proof fn lemma_base_edge_in_overlay(
        &self,
        rects: Seq<(usize, usize, usize, usize)>,
        shortcuts: Seq<Shortcut>,
        overlay: Graph,
        u: int,
        k: int,
    )
        requires
            self.wf(),
            self.is_overlay(rects, shortcuts, overlay),
            self.leaves(k, u),
        ensures
            overlay.connects(overlay.all_open(), u, self.target(k), self.weight(k)),
    {
        broadcast use vstd::seq_lib::group_to_multiset_ensures;

        self.lemma_edge_in_range(k, u);
        let edge = self.edges@[k];
        let n = self.node_count();
        assert(overlay.offsets@[u].0 <= overlay.offsets@[u + 1].0);
        assert(overlay.offsets@[u + 1].0 <= overlay.offsets@[n].0);
        assert(self.offsets@[u].0 <= self.offsets@[u + 1].0);
        assert(self.offsets@[u + 1].0 <= self.offsets@[n].0);
        let p = k - self.offsets@[u].0;
        let all = self.merged(shortcuts, u);
        assert(all[p] == edge);
        assert(all.contains(edge));
        assert(all.to_multiset().count(edge) > 0);
        assert(overlay.adjacency(u).to_multiset().count(edge) > 0);
        assert(overlay.adjacency(u).contains(edge));
        let q = choose|q: int| 0 <= q < overlay.adjacency(u).len() && overlay.adjacency(u)[q] == edge;
        let twin = overlay.offsets@[u].0 + q;
        assert(overlay.edges@[twin] == edge);
        overlay.lemma_edge_is_walk(twin, u);
    }

    /// Every walk in a graph has a walk of its length between the same
    /// nodes in its overlay.
    proof fn lemma_base_walk_in_overlay(
        &self,
        rects: Seq<(usize, usize, usize, usize)>,
        shortcuts: Seq<Shortcut>,
        overlay: Graph,
        nodes: Seq<int>,
        steps: Seq<int>,
    )
        requires
            self.wf(),
            self.is_overlay(rects, shortcuts, overlay),
            self.is_walk(self.all_open(), nodes, steps),
        ensures
            overlay.connects(overlay.all_open(), nodes[0], nodes.last(), self.walk_weight(steps)),
        decreases steps.len(),
    {
        if steps.len() == 0 {
            overlay.lemma_walk_trivial(overlay.all_open(), nodes[0]);
        } else {
            let m = steps.len() as int;
            self.lemma_walk_split(self.all_open(), nodes, steps, m - 1);
            assert(nodes.take(m) =~= nodes.drop_last());
            assert(steps.take(m - 1) =~= steps.drop_last());
            self.lemma_base_walk_in_overlay(
                rects,
                shortcuts,
                overlay,
                nodes.drop_last(),
                steps.drop_last(),
            );
            assert(self.leaves(steps[m - 1], nodes[m - 1]));
            self.lemma_base_edge_in_overlay(rects, shortcuts, overlay, nodes[m - 1], steps[m - 1]);
            overlay.lemma_connects_join(
                overlay.all_open(),
                nodes[0],
                nodes[m - 1],
                nodes[m],
                self.walk_weight(steps.drop_last()),
                self.weight(steps[m - 1]),
            );
        }
    }

    /// An overlay whose shortcuts are as long as the shortest walks has the
    /// shortest distances of the undirected graph it was built from.
    pub proof fn lemma_overlay_keeps_distances(
        &self,
        rects: Seq<(usize, usize, usize, usize)>,
        shortcuts: Seq<Shortcut>,
        overlay: Graph,
        s: int,
        t: int,
    )
        requires
            self.wf(),
            self.is_undirected(),
            self.is_overlay(rects, shortcuts, overlay),
            shortcuts_are_shortest(self, shortcuts),
        ensures
            overlay.shortest_distance(overlay.all_open(), s, t) == self.shortest_distance(
                self.all_open(),
                s,
                t,
            ),
    {
        let far = overlay.all_open();
        let near = self.all_open();
        assert forall|d: int| self.is_shortest(near, s, t, d) implies overlay.is_shortest(
            far,
            s,
            t,
            d,
        ) by {
            let (nodes, steps) = choose|nodes: Seq<int>, steps: Seq<int>|
                {
                    &&& #[trigger] self.is_walk(near, nodes, steps)
                    &&& nodes[0] == s
                    &&& nodes.last() == t
                    &&& self.walk_weight(steps) == d
                };
            self.lemma_base_walk_in_overlay(rects, shortcuts, overlay, nodes, steps);
            assert forall|nodes2: Seq<int>, steps2: Seq<int>|
                #[trigger] overlay.is_walk(far, nodes2, steps2) && nodes2[0] == s && nodes2.last()
                    == t implies d <= overlay.walk_weight(steps2) by {
                self.lemma_overlay_walk_in_base(rects, shortcuts, overlay, nodes2, steps2);
                let (nodes3, steps3) = choose|nodes3: Seq<int>, steps3: Seq<int>|
                    {
                        &&& #[trigger] self.is_walk(near, nodes3, steps3)
                        &&& nodes3[0] == s
                        &&& nodes3.last() == t
                        &&& self.walk_weight(steps3) == overlay.walk_weight(steps2)
                    };
                assert(d <= self.walk_weight(steps3));
            }
        }
        assert forall|d: int| overlay.is_shortest(far, s, t, d) implies self.is_shortest(
            near,
            s,
            t,
            d,
        ) by {
            let (nodes, steps) = choose|nodes: Seq<int>, steps: Seq<int>|
                {
                    &&& #[trigger] overlay.is_walk(far, nodes, steps)
                    &&& nodes[0] == s
                    &&& nodes.last() == t
                    &&& overlay.walk_weight(steps) == d
                };
            self.lemma_overlay_walk_in_base(rects, shortcuts, overlay, nodes, steps);
            assert forall|nodes2: Seq<int>, steps2: Seq<int>|
                #[trigger] self.is_walk(near, nodes2, steps2) && nodes2[0] == s && nodes2.last()
                    == t implies d <= self.walk_weight(steps2) by {
                self.lemma_base_walk_in_overlay(rects, shortcuts, overlay, nodes2, steps2);
                let (nodes3, steps3) = choose|nodes3: Seq<int>, steps3: Seq<int>|
                    {
                        &&& #[trigger] overlay.is_walk(far, nodes3, steps3)
                        &&& nodes3[0] == s
                        &&& nodes3.last() == t
                        &&& overlay.walk_weight(steps3) == self.walk_weight(steps2)
                    };
                assert(d <= overlay.walk_weight(steps3));
            }
        }
        if self.shortest_distance(near, s, t).is_some() {
            self.lemma_distance_is_shortest(near, s, t);
            let d = self.shortest_distance(near, s, t).unwrap();
            overlay.lemma_shortest_is_distance(far, s, t, d);
        } else if overlay.shortest_distance(far, s, t).is_some() {
            overlay.lemma_distance_is_shortest(far, s, t);
            let d = overlay.shortest_distance(far, s, t).unwrap();
            self.lemma_shortest_is_distance(near, s, t, d);
        }
    }

    /// The shortcuts of pairs between which walks lead are as long as the
    /// shortest walks.
    pub proof fn lemma_joined_are_shortest(&self, pairs: Seq<(int, int)>)
        requires
            self.wf(),
            crate::overlay::pairs_in_range(pairs, self.node_count()),
            self.all_joinable(pairs),
        ensures
            shortcuts_are_shortest(self, self.joined(pairs)),
        decreases pairs.len(),
    {
        if pairs.len() > 0 {
            let shorter = pairs.drop_last();
            let last = pairs[pairs.len() - 1];
            assert(crate::overlay::pairs_in_range(shorter, self.node_count())) by {
                assert forall|k: int| 0 <= k < shorter.len() implies 0 <= (#[trigger] shorter[k]).0
                    < self.node_count() && 0 <= shorter[k].1 < self.node_count() by {
                    assert(shorter[k] == pairs[k]);
                }
            }
            assert(self.all_joinable(shorter)) by {
                assert forall|k: int| 0 <= k < shorter.len() && (#[trigger] shorter[k]).0
                    != shorter[k].1 implies self.shortest_distance(
                    self.all_open(),
                    shorter[k].0,
                    shorter[k].1,
                ).is_some() by {
                    assert(shorter[k] == pairs[k]);
                }
            }
            self.lemma_joined_are_shortest(shorter);
            let all = self.joined(pairs);
            let rest = self.joined(shorter);
            assert(0 <= last.0 < self.node_count() && 0 <= last.1 < self.node_count());
            assert forall|k: int| 0 <= k < all.len() implies {
                let sc = #[trigger] all[k];
                &&& sc.from < self.node_count()
                &&& sc.to < self.node_count()
                &&& self.is_shortest(
                    self.all_open(),
                    sc.from as int,
                    sc.to as int,
                    sc.distance as int,
                )
            } by {
                if k < rest.len() {
                    assert(all[k] == rest[k]);
                } else {
                    assert(all[k] == self.shortcut_for(last.0, last.1));
                    self.lemma_distance_is_shortest(self.all_open(), last.0, last.1);
                }
            }
        }
    }
}

/// Two results hold the same route, the same distance and the same number
/// of pops.
pub open spec fn same_result(one: PathResult, other: PathResult) -> bool {
    &&& one.distance == other.distance
    &&& one.heap_pops == other.heap_pops
    &&& one.path.is_some() == other.path.is_some()
    &&& (one.path matches Some(p) ==> p@ == other.path.unwrap()@)
}

/// A forward search has one result only: two runs between the same nodes,
/// over the same open nodes and with the same estimate, return the same
/// route, the same distance and the same number of pops, whatever the
/// working set held before.
pub proof fn lemma_search_result_unique(
    g: &Graph,
    open: Seq<bool>,
    h: Seq<u32>,
    start: int,
    end: int,
    one: PathResult,
    other: PathResult,
)
    requires
        g.search_result_is(open, h, start, end, one),
        g.search_result_is(open, h, start, end, other),
    ensures
        same_result(one, other),
{
    let a = choose|rounds: nat| #[trigger] is_search_result(g, open, h, start, end, rounds, one);
    let b = choose|rounds: nat| #[trigger] is_search_result(g, open, h, start, end, rounds, other);
    if a < b {
        assert(!search_stops(search_after(g, open, h, start, a), end));
    }
    if b < a {
        assert(!search_stops(search_after(g, open, h, start, b), end));
    }
    let side = search_after(g, open, h, start, a);
    if side.queue.len() != 0 {
        lemma_parent_chain_unique(side.parent, one.path->0@, other.path->0@, end, start);
    }
}

/// The search from both ends has one result only.
pub proof fn lemma_both_result_unique(
    g: &Graph,
    start: int,
    end: int,
    one: PathResult,
    other: PathResult,
)
    requires
        g.both_result_is(start, end, one),
        g.both_result_is(start, end, other),
    ensures
        same_result(one, other),
{
    let a = choose|rounds: nat| #[trigger] is_both_result(g, start, end, rounds, one);
    let b = choose|rounds: nat| #[trigger] is_both_result(g, start, end, rounds, other);
    if a < b {
        assert(!both_stop(both_after(g, start, end, a)));
    }
    if b < a {
        assert(!both_stop(both_after(g, start, end, b)));
    }
    let both = both_after(g, start, end, a);
    if one.path.is_some() {
        let p = one.path->0@;
        let q = other.path->0@;
        let (back1, on1) = choose|back: Seq<usize>, on: Seq<usize>|
            {
                &&& #[trigger] is_parent_chain(both.far.parent, back, both.far.middle as int, end)
                &&& #[trigger] is_parent_chain(both.near.parent, on, both.far.middle as int, start)
                &&& p == back.reverse() + on.skip(1)
            };
        let (back2, on2) = choose|back: Seq<usize>, on: Seq<usize>|
            {
                &&& #[trigger] is_parent_chain(both.far.parent, back, both.far.middle as int, end)
                &&& #[trigger] is_parent_chain(both.near.parent, on, both.far.middle as int, start)
                &&& q == back.reverse() + on.skip(1)
            };
        lemma_parent_chain_unique(both.far.parent, back1, back2, both.far.middle as int, end);
        lemma_parent_chain_unique(both.near.parent, on1, on2, both.far.middle as int, start);
    }
}

/// Every variant has one result only: two runs of the same variant between
/// the same nodes and with the same estimate return the same route, the
/// same distance and the same number of pops.
pub proof fn lemma_variant_result_unique(
    g: &Graph,
    variant: ExecutionType,
    heuristic: Seq<u32>,
    start: int,
    end: int,
    one: PathResult,
    other: PathResult,
)
    requires
        g.variant_result_is(variant, heuristic, start, end, one),
        g.variant_result_is(variant, heuristic, start, end, other),
    ensures
        same_result(one, other),
{
    match variant {
        ExecutionType::Dijkstra => {
            lemma_search_result_unique(
                g,
                g.all_open(),
                crate::rounds::no_estimates(g.node_count()),
                start,
                end,
                one,
                other,
            );
        },
        ExecutionType::BiDijkstra => {
            lemma_both_result_unique(g, start, end, one, other);
        },
        ExecutionType::AStar => {
            lemma_search_result_unique(g, g.all_open(), heuristic, start, end, one, other);
        },
        ExecutionType::ShortcutAStar => {
            lemma_search_result_unique(
                g,
                g.open_around(start, end),
                heuristic,
                start,
                end,
                one,
                other,
            );
        },
    }
}

/// On a graph that marks no node with a rectangle, the search that keeps
/// out of foreign rectangles may enter every node, so that it returns what
/// A* returns.
pub proof fn lemma_no_marks_no_pruning(
    g: &Graph,
    heuristic: Seq<u32>,
    start: int,
    end: int,
    pruned: PathResult,
    plain: PathResult,
)
    requires
        g.wf(),
        forall|v: int| 0 <= v < g.node_count() ==> (#[trigger] g.offsets@[v]).1.is_none(),
        g.search_result_is(g.open_around(start, end), heuristic, start, end, pruned),
        g.search_result_is(g.all_open(), heuristic, start, end, plain),
    ensures
        g.open_around(start, end) == g.all_open(),
        same_result(pruned, plain),
{
    assert forall|v: int| 0 <= v < g.node_count() implies g.open_around(start, end)[v]
        == g.all_open()[v] by {
        assert(g.offsets@[v].1.is_none());
    }
    assert(g.open_around(start, end) =~= g.all_open());
    lemma_search_result_unique(g, g.all_open(), heuristic, start, end, pruned, plain);
}

/// The result of a forward search is that of the first round at which the
/// search stops.
pub proof fn lemma_search_result_at(
    g: &Graph,
    open: Seq<bool>,
    h: Seq<u32>,
    start: int,
    end: int,
    rounds: nat,
    result: PathResult,
)
    requires
        g.search_result_is(open, h, start, end, result),
        forall|i: nat| i < rounds ==> !search_stops(#[trigger] search_after(g, open, h, start, i), end),
        search_stops(search_after(g, open, h, start, rounds), end),
    ensures
        is_search_result(g, open, h, start, end, rounds, result),
{
    let r = choose|r: nat| #[trigger] is_search_result(g, open, h, start, end, r, result);
    if r < rounds {
        assert(!search_stops(search_after(g, open, h, start, r), end));
    }
    if rounds < r {
        assert(!search_stops(search_after(g, open, h, start, rounds), end));
    }
}

/// The result of the search from both ends is that of the first round at
/// which the search stops.
pub proof fn lemma_both_result_at(g: &Graph, start: int, end: int, rounds: nat, result: PathResult)
    requires
        g.both_result_is(start, end, result),
        forall|i: nat| i < rounds ==> !both_stop(#[trigger] both_after(g, start, end, i)),
        both_stop(both_after(g, start, end, rounds)),
    ensures
        is_both_result(g, start, end, rounds, result),
{
    let r = choose|r: nat| #[trigger] is_both_result(g, start, end, r, result);
    if r < rounds {
        assert(!both_stop(both_after(g, start, end, r)));
    }
    if rounds < r {
        assert(!both_stop(both_after(g, start, end, rounds)));
    }
}

/// A forward search that starts at a node without edges, and not at its
/// end, pops that node and returns nothing.
pub proof fn lemma_search_from_land(
    g: &Graph,
    open: Seq<bool>,
    h: Seq<u32>,
    start: int,
    end: int,
    result: PathResult,
)
    requires
        g.wf(),
        0 <= start < g.node_count(),
        start != end,
        !g.is_water_node(start),
        g.search_result_is(open, h, start, end, result),
    ensures
        result.path is None,
        result.distance is None,
        result.heap_pops == 1,
{
    let e = HeapNode { id: start as u32, distance: 0 };
    lemma_single_entry(e);
    reveal_with_fuel(search_after, 3);
    reveal_with_fuel(relax_upto, 2);
    let first = search_after(g, open, h, start, 0);
    let second = search_after(g, open, h, start, 1);
    assert(!search_stops(first, end));
    assert(second.queue == first.queue.remove(e));
    assert(search_stops(second, end));
    assert forall|i: nat| i < 1 implies !search_stops(
        #[trigger] search_after(g, open, h, start, i),
        end,
    ) by {
        assert(i == 0);
    }
    lemma_search_result_at(g, open, h, start, end, 1, result);
}

/// The search from both ends that starts at a node without edges, and not
/// at its end, pops the two ends and returns nothing.
pub proof fn lemma_both_from_land(g: &Graph, start: int, end: int, result: PathResult)
    requires
        g.wf(),
        0 <= start < g.node_count(),
        0 <= end < g.node_count(),
        start != end,
        !g.is_water_node(start),
        g.both_result_is(start, end, result),
    ensures
        result.path is None,
        result.distance is None,
        result.heap_pops == 2,
{
    let e = HeapNode { id: start as u32, distance: 0 };
    let f = HeapNode { id: end as u32, distance: 0 };
    lemma_single_entry(e);
    lemma_single_entry(f);
    reveal_with_fuel(both_after, 3);
    reveal_with_fuel(relax_upto, 2);
    let first = both_after(g, start, end, 0);
    let second = both_after(g, start, end, 1);
    assert(!both_meet(first));
    assert(!both_stop(first));
    assert(second.near.queue == first.near.queue.remove(e));
    assert(both_stop(second));
    assert(!both_meet(second));
    assert forall|i: nat| i < 1 implies !both_stop(#[trigger] both_after(g, start, end, i)) by {
        assert(i == 0);
    }
    lemma_both_result_at(g, start, end, 1, result);
}

} // verus!
