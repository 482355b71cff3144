//! Crossing a rectangle by its shortcuts. Every two border cells of a
//! rectangle are joined by an edge as long as the shortest route between
//! them, so a search that keeps out of the interior of a rectangle loses
//! nothing by it: where the rectangles do not overlap and the edges of the
//! graph are steps of the raster, it finds routes as short as the shortest
//! routes of the graph that the overlay was built from.

use crate::graph::Graph;
use crate::overlay::{on_border, overlaps, pairs_before, rect_fits};
use crate::raster::{lemma_cell, lemma_cell_of, lemma_steps_stay_inside, touches};
use crate::search::PathResult;
use vstd::prelude::*;

verus! {

/// No two of the rectangles overlap.
pub open spec fn rects_apart(rects: Seq<(usize, usize, usize, usize)>) -> bool {
    forall|i: int, j: int|
        0 <= i < rects.len() && 0 <= j < rects.len() && i != j ==> !overlaps(
            #[trigger] rects[i],
            #[trigger] rects[j],
        )
}

/// Whether no two of `rects` overlap.
pub fn are_apart(rects: &Vec<(usize, usize, usize, usize)>) -> (ok: bool)
    ensures
        ok == rects_apart(rects@),
{
    let mut j: usize = 0;
    while j < rects.len()
        invariant
            j <= rects@.len(),
            forall|a: int, b: int|
                0 <= a < b < j ==> !overlaps(#[trigger] rects@[a], #[trigger] rects@[b]),
        decreases rects@.len() - j,
    {
        let rect = rects[j];
        let mut i: usize = 0;
        while i < j
            invariant
                j < rects@.len(),
                rect == rects@[j as int],
                i <= j,
                forall|a: int| 0 <= a < i ==> !overlaps(#[trigger] rects@[a], rect),
            decreases j - i,
        {
            let placed = rects[i];
            if rect.0 < placed.2 && rect.2 > placed.0 && rect.1 < placed.3 && rect.3 > placed.1 {
                proof {
                    assert(overlaps(rects@[i as int], rects@[j as int]));
                }
                return false;
            }
            i += 1;
        }
        j += 1;
    }
    proof {
        assert forall|a: int, b: int|
            0 <= a < rects@.len() && 0 <= b < rects@.len() && a != b implies !overlaps(
            #[trigger] rects@[a],
            #[trigger] rects@[b],
        ) by {
            if a < b {
                assert(!overlaps(rects@[a], rects@[b]));
            } else {
                assert(!overlaps(rects@[b], rects@[a]));
            }
        }
    }
    true
}

impl Graph {
    /// `overlay` is this graph with a shortcut between every two border
    /// cells of each of `rects`; this graph is undirected and its edges are
    /// steps of the raster; the rectangles lie in the raster and no two of
    /// them overlap.
    pub open spec fn is_crossed_by(
        &self,
        rects: Seq<(usize, usize, usize, usize)>,
        overlay: Graph,
    ) -> bool {
        let cols = self.raster_columns_count as int;
        let rows = self.raster_rows_count as int;
        let pairs = pairs_before(cols, rects, rects.len() as int);
        &&& self.wf()
        &&& self.is_undirected()
        &&& self.steps_only()
        &&& forall|j: int| 0 <= j < rects.len() ==> rect_fits(#[trigger] rects[j], cols, rows)
        &&& rects_apart(rects)
        &&& self.all_joinable(pairs)
        &&& self.is_overlay(rects, self.joined(pairs), overlay)
    }

    /// The rectangles of an overlay can be counted.
    proof fn lemma_rects_counted(&self, rects: Seq<(usize, usize, usize, usize)>, overlay: Graph)
        requires
            self.is_overlay(rects, self.joined(pairs_before(
                self.raster_columns_count as int,
                rects,
                rects.len() as int,
            )), overlay),
        ensures
            rects.len() <= usize::MAX,
    {
        assert(overlay.shortcut_rectangles.len() == overlay.shortcut_rectangles@.len());
    }

    /// A cell inside one rectangle and inside or on the border of another
    /// shows that the two overlap.
    proof fn lemma_shared_cell(
        &self,
        one: (usize, usize, usize, usize),
        other: (usize, usize, usize, usize),
        v: int,
    )
        requires
            self.inside_rect(v, one),
            self.inside_rect(v, other) || on_border(self.raster_columns_count as int, other, v),
        ensures
            overlaps(one, other),
            overlaps(other, one),
    {
    }

    /// A step out of a cell inside a rectangle leads to a cell inside the
    /// rectangle or on its border, and a step leads back.
    proof fn lemma_step_out(&self, rect: (usize, usize, usize, usize), u: int, v: int)
        requires
            self.wf(),
            rect_fits(rect, self.raster_columns_count as int, self.raster_rows_count as int),
            0 <= u < self.node_count(),
            self.inside_rect(u, rect),
            touches(self.raster_rows_count as int, self.raster_columns_count as int, u, v),
        ensures
            0 <= v < self.node_count(),
            self.inside_rect(v, rect) || on_border(self.raster_columns_count as int, rect, v),
            touches(self.raster_rows_count as int, self.raster_columns_count as int, v, u),
    {
        let rows = self.raster_rows_count as int;
        let cols = self.raster_columns_count as int;
        lemma_cell(rows, cols, u);
        lemma_steps_stay_inside(rows, cols, u);
        let row = u / cols;
        let col = u % cols;
        lemma_cell_of(rows, cols, col + 1, row);
        lemma_cell_of(rows, cols, col - 1, row);
        lemma_cell_of(rows, cols, col, row - 1);
        lemma_cell_of(rows, cols, col, row + 1);
        assert((row - 1) * cols + col == u - cols) by (nonlinear_arith)
            requires
                u == row * cols + col,
        ;
        assert((row + 1) * cols + col == u + cols) by (nonlinear_arith)
            requires
                u == row * cols + col,
        ;
    }

    /// What the first rectangle from `from` on that holds `v` is: it holds
    /// `v` and none before it does; where there is none, no rectangle holds
    /// `v`.
    proof fn lemma_first_rect(&self, rects: Seq<(usize, usize, usize, usize)>, v: int, from: int)
        requires
            0 <= from,
            rects.len() <= usize::MAX,
        ensures
            match self.first_rect_from(rects, v, from) {
                Some(r) => from <= r < rects.len() && self.inside_rect(v, rects[r as int]),
                None => forall|j: int| from <= j < rects.len() ==> !self.inside_rect(v, rects[j]),
            },
        decreases rects.len() - from,
    {
        if from < rects.len() && !self.inside_rect(v, rects[from]) {
            self.lemma_first_rect(rects, v, from + 1);
        }
    }

    /// Where no two rectangles overlap, a node is marked with the one
    /// rectangle that holds it.
    proof fn lemma_mark_of_inside(
        &self,
        rects: Seq<(usize, usize, usize, usize)>,
        overlay: Graph,
        v: int,
        r: int,
    )
        requires
            self.is_crossed_by(rects, overlay),
            0 <= v < self.node_count(),
            0 <= r < rects.len(),
            self.inside_rect(v, rects[r]),
        ensures
            overlay.offsets@[v].1 == Some(r as usize),
    {
        self.lemma_rects_counted(rects, overlay);
        self.lemma_first_rect(rects, v, 0);
        let found = self.first_rect_from(rects, v, 0);
        assert(overlay.offsets@[v].1 == found);
        let other = found->0 as int;
        if other != r {
            self.lemma_shared_cell(rects[other], rects[r], v);
        }
    }

    /// Where no two rectangles overlap, a cell on the border of a rectangle
    /// is marked with none and is open to every search.
    proof fn lemma_border_open(
        &self,
        rects: Seq<(usize, usize, usize, usize)>,
        overlay: Graph,
        s: int,
        t: int,
        r: int,
        v: int,
    )
        requires
            self.is_crossed_by(rects, overlay),
            0 <= v < self.node_count(),
            0 <= r < rects.len(),
            on_border(self.raster_columns_count as int, rects[r], v),
        ensures
            overlay.open_around(s, t)[v],
    {
        self.lemma_rects_counted(rects, overlay);
        self.lemma_first_rect(rects, v, 0);
        let found = self.first_rect_from(rects, v, 0);
        assert(overlay.offsets@[v].1 == found);
        if found is Some {
            let other = found->0 as int;
            if other != r {
                self.lemma_shared_cell(rects[other], rects[r], v);
            }
        }
    }

    /// A node that a search may enter lies inside no rectangle that holds
    /// neither end of the search.
    proof fn lemma_open_outside(
        &self,
        rects: Seq<(usize, usize, usize, usize)>,
        overlay: Graph,
        s: int,
        t: int,
        r: int,
        v: int,
    )
        requires
            self.is_crossed_by(rects, overlay),
            0 <= v < self.node_count(),
            0 <= r < rects.len(),
            overlay.open_around(s, t)[v],
            !self.inside_rect(s, rects[r]),
            !self.inside_rect(t, rects[r]),
        ensures
            !self.inside_rect(v, rects[r]),
    {
        if self.inside_rect(v, rects[r]) {
            self.lemma_rects_counted(rects, overlay);
            self.lemma_mark_of_inside(rects, overlay, v, r);
            assert(overlay.admits(v, s, t));
        }
    }

    /// The ends of a search are open to it.
    proof fn lemma_end_open(
        &self,
        rects: Seq<(usize, usize, usize, usize)>,
        overlay: Graph,
        s: int,
        t: int,
    )
        requires
            self.is_crossed_by(rects, overlay),
            0 <= s < self.node_count(),
            0 <= t < self.node_count(),
        ensures
            overlay.open_around(s, t)[s],
            overlay.open_around(s, t)[t],
    {
        self.lemma_rects_counted(rects, overlay);
        self.lemma_first_rect(rects, s, 0);
        self.lemma_first_rect(rects, t, 0);
        assert(overlay.offsets@[s].1 == self.first_rect_from(rects, s, 0));
        assert(overlay.offsets@[t].1 == self.first_rect_from(rects, t, 0));
    }

    /// The first node after place `i` at which a walk that is inside a
    /// rectangle at place `i`, and outside at its end, has left the
    /// rectangle's interior.
    proof fn lemma_first_exit(
        &self,
        rect: (usize, usize, usize, usize),
        nodes: Seq<int>,
        i: int,
    ) -> (q: int)
        requires
            0 <= i < nodes.len(),
            self.inside_rect(nodes[i], rect),
            !self.inside_rect(nodes.last(), rect),
        ensures
            i < q < nodes.len(),
            self.inside_rect(nodes[q - 1], rect),
            !self.inside_rect(nodes[q], rect),
        decreases nodes.len() - i,
    {
        if !self.inside_rect(nodes[i + 1], rect) {
            i + 1
        } else {
            self.lemma_first_exit(rect, nodes, i + 1)
        }
    }

    /// An edge into an open node is a walk.
    proof fn lemma_edge_reaches(&self, open: Seq<bool>, u: int, v: int, d: int)
        requires
            self.wf(),
            self.has_edge(u, v, d),
            open[v],
        ensures
            self.connects(open, u, v, d),
    {
        let k = choose|k: int| #[trigger]
            self.leaves(k, u) && self.target(k) == v && self.weight(k) == d;
        self.lemma_edge_in_range(k, u);
        self.lemma_weight_single(k);
        let nodes = seq![u, v];
        let steps = seq![k];
        assert(self.is_walk(open, nodes, steps));
        assert(nodes.last() == v);
    }

    /// An edge of the graph into an open node is a walk in the overlay.
    proof fn lemma_kept_edge(
        &self,
        rects: Seq<(usize, usize, usize, usize)>,
        overlay: Graph,
        open: Seq<bool>,
        x: int,
        k: int,
    )
        requires
            self.is_crossed_by(rects, overlay),
            self.leaves(k, x),
            open[self.target(k)],
        ensures
            overlay.connects(open, x, self.target(k), self.weight(k)),
    {
        let n = self.node_count();
        let cols = self.raster_columns_count as int;
        let shortcuts = self.joined(pairs_before(cols, rects, rects.len() as int));
        self.lemma_edge_in_range(k, x);
        let p = k - self.offsets@[x].0;
        assert(self.offsets@[x].0 <= self.offsets@[x + 1].0);
        assert(self.offsets@[x + 1].0 <= self.offsets@[n].0);
        assert(self.adjacency(x)[p] == self.edges@[k]);
        assert(self.merged(shortcuts, x)[p] == self.edges@[k]);
        overlay.lemma_holds_edge(self.merged(shortcuts, x), x, self.edges@[k]);
        overlay.lemma_edge_reaches(open, x, self.target(k), self.weight(k));
    }

    /// A walk of the graph that leads from an open node into a node that is
    /// shut comes out of that node's rectangle at a border cell, which is
    /// open, and the overlay leads from the first node to that cell by a
    /// walk that is no longer and enters no other node.
    proof fn lemma_crossing(
        &self,
        rects: Seq<(usize, usize, usize, usize)>,
        overlay: Graph,
        s: int,
        t: int,
        nodes: Seq<int>,
        steps: Seq<int>,
    ) -> (out: (int, int))
        requires
            self.is_crossed_by(rects, overlay),
            self.is_walk(self.all_open(), nodes, steps),
            steps.len() >= 1,
            overlay.open_around(s, t)[nodes[0]],
            overlay.open_around(s, t)[nodes.last()],
            !overlay.open_around(s, t)[nodes[1]],
        ensures
            2 <= out.0 <= steps.len(),
            overlay.open_around(s, t)[nodes[out.0]],
            out.1 <= self.walk_weight(steps.take(out.0)),
            overlay.connects(overlay.open_around(s, t), nodes[0], nodes[out.0], out.1),
    {
        let rows = self.raster_rows_count as int;
        let cols = self.raster_columns_count as int;
        let open = overlay.open_around(s, t);
        let all = self.all_open();
        let x = nodes[0];
        let y = nodes.last();
        let v = nodes[1];
        assert(self.leaves(steps[0], x) && self.target(steps[0]) == v);
        self.lemma_edge_in_range(steps[0], x);
        self.lemma_walk_nodes_in_range(all, nodes, steps, nodes.len() - 1);
        assert(!overlay.admits(v, s, t));
        self.lemma_rects_counted(rects, overlay);
        self.lemma_first_rect(rects, v, 0);
        assert(overlay.offsets@[v].1 == self.first_rect_from(rects, v, 0));
        let r = overlay.offsets@[v].1->0 as int;
        let rect = rects[r];
        assert(!self.inside_rect(s, rect) && !self.inside_rect(t, rect));
        self.lemma_open_outside(rects, overlay, s, t, r, x);
        self.lemma_open_outside(rects, overlay, s, t, r, y);
        assert(touches(rows, cols, x, v));
        lemma_steps_stay_inside(rows, cols, x);
        assert(touches(rows, cols, v, x));
        self.lemma_step_out(rect, v, x);
        let q = self.lemma_first_exit(rect, nodes, 1);
        let z = nodes[q];
        assert(self.leaves(steps[q - 1], nodes[q - 1]) && self.target(steps[q - 1]) == z);
        self.lemma_walk_nodes_in_range(all, nodes, steps, q - 1);
        self.lemma_step_out(rect, nodes[q - 1], z);
        self.lemma_border_open(rects, overlay, s, t, r, z);
        self.lemma_walk_split(all, nodes, steps, q);
        let head = steps.take(q);
        assert(nodes.take(q + 1)[0] == x);
        assert(nodes.take(q + 1).last() == z);
        if x == z {
            self.lemma_weight_nonnegative(head);
            overlay.lemma_walk_trivial(open, x);
            (q, 0)
        } else {
            self.lemma_border_cells_joined(rects, overlay, r, x, z);
            let across = self.shortest_distance(all, x, z).unwrap();
            self.lemma_distance_is_shortest(all, x, z);
            assert(across <= self.walk_weight(head));
            overlay.lemma_edge_reaches(open, x, z, across);
            (q, across)
        }
    }

    /// What is left of a walk after its first `q` edges is a walk from the
    /// node then reached to the end, and the lengths of the two parts add
    /// up.
    proof fn lemma_walk_rest(&self, nodes: Seq<int>, steps: Seq<int>, q: int)
        requires
            self.wf(),
            self.is_walk(self.all_open(), nodes, steps),
            1 <= q <= steps.len(),
        ensures
            self.is_walk(self.all_open(), nodes.skip(q), steps.skip(q)),
            nodes.skip(q)[0] == nodes[q],
            nodes.skip(q).last() == nodes.last(),
            steps.skip(q).len() < steps.len(),
            self.walk_weight(steps) == self.walk_weight(steps.take(q)) + self.walk_weight(
                steps.skip(q),
            ),
            self.leaves(steps[0], nodes[0]),
            self.target(steps[0]) == nodes[1],
            q == 1 ==> self.walk_weight(steps.take(q)) == self.weight(steps[0]),
    {
        self.lemma_walk_split(self.all_open(), nodes, steps, q);
        assert(self.leaves(steps[0], nodes[0]));
        if q == 1 {
            assert(steps.take(1) =~= seq![steps[0]]);
            self.lemma_weight_single(steps[0]);
        }
    }

    /// Every walk of the graph between two open nodes has a walk in the
    /// overlay between the same nodes that enters open nodes only and is
    /// no longer: where the walk enters the interior of a rectangle that is
    /// shut, the shortcut from the border cell before to the border cell at
    /// which it comes out again takes its place.
    proof fn lemma_detour(
        &self,
        rects: Seq<(usize, usize, usize, usize)>,
        overlay: Graph,
        s: int,
        t: int,
        nodes: Seq<int>,
        steps: Seq<int>,
    ) -> (d: int)
        requires
            self.is_crossed_by(rects, overlay),
            self.is_walk(self.all_open(), nodes, steps),
            overlay.open_around(s, t)[nodes[0]],
            overlay.open_around(s, t)[nodes.last()],
        ensures
            d <= self.walk_weight(steps),
            overlay.connects(overlay.open_around(s, t), nodes[0], nodes.last(), d),
        decreases steps.len(),
    {
        let open = overlay.open_around(s, t);
        if steps.len() == 0 {
            assert(0 <= nodes[0] < overlay.node_count());
            overlay.lemma_walk_trivial(open, nodes[0]);
            0
        } else if open[nodes[1]] {
            self.lemma_walk_rest(nodes, steps, 1);
            self.lemma_kept_edge(rects, overlay, open, nodes[0], steps[0]);
            let rest = self.lemma_detour(rects, overlay, s, t, nodes.skip(1), steps.skip(1));
            overlay.lemma_connects_join(
                open,
                nodes[0],
                nodes[1],
                nodes.last(),
                self.weight(steps[0]),
                rest,
            );
            self.weight(steps[0]) + rest
        } else {
            let (q, across) = self.lemma_crossing(rects, overlay, s, t, nodes, steps);
            self.lemma_walk_rest(nodes, steps, q);
            let rest = self.lemma_detour(rects, overlay, s, t, nodes.skip(q), steps.skip(q));
            overlay.lemma_connects_join(open, nodes[0], nodes[q], nodes.last(), across, rest);
            across + rest
        }
    }

    /// Between any two nodes, the shortest distance that a search finds in
    /// the overlay when it keeps out of the rectangles that hold neither of
    /// them is the shortest distance of the graph itself.
    pub proof fn lemma_overlay_loses_nothing(
        &self,
        rects: Seq<(usize, usize, usize, usize)>,
        overlay: Graph,
        s: int,
        t: int,
    )
        requires
            self.is_crossed_by(rects, overlay),
            0 <= s < self.node_count(),
            0 <= t < self.node_count(),
        ensures
            overlay.shortest_distance(overlay.open_around(s, t), s, t) == self.shortest_distance(
                self.all_open(),
                s,
                t,
            ),
    {
        let cols = self.raster_columns_count as int;
        let pairs = pairs_before(cols, rects, rects.len() as int);
        let shortcuts = self.joined(pairs);
        let open = overlay.open_around(s, t);
        let all = self.all_open();
        let whole = overlay.all_open();
        self.lemma_pairs_in_range(rects, rects.len() as int);
        self.lemma_joined_are_shortest(pairs);
        self.lemma_overlay_keeps_distances(rects, shortcuts, overlay, s, t);
        self.lemma_end_open(rects, overlay, s, t);
        if self.shortest_distance(all, s, t) is Some {
            let d = self.shortest_distance(all, s, t).unwrap();
            self.lemma_distance_is_shortest(all, s, t);
            overlay.lemma_distance_is_shortest(whole, s, t);
            let (nodes, steps) = choose|nodes: Seq<int>, steps: Seq<int>|
                {
                    &&& #[trigger] self.is_walk(all, nodes, steps)
                    &&& nodes[0] == s
                    &&& nodes.last() == t
                    &&& self.walk_weight(steps) == d
                };
            let found = self.lemma_detour(rects, overlay, s, t, nodes, steps);
            assert forall|nodes2: Seq<int>, steps2: Seq<int>|
                #[trigger] overlay.is_walk(open, nodes2, steps2) && nodes2[0] == s && nodes2.last()
                    == t implies d <= overlay.walk_weight(steps2) by {
                overlay.lemma_walk_in_full_graph(open, nodes2, steps2);
            }
            let (nodes3, steps3) = choose|nodes3: Seq<int>, steps3: Seq<int>|
                {
                    &&& #[trigger] overlay.is_walk(open, nodes3, steps3)
                    &&& nodes3[0] == s
                    &&& nodes3.last() == t
                    &&& overlay.walk_weight(steps3) == found
                };
            assert(found == d);
            overlay.lemma_shortest_is_distance(open, s, t, d);
        } else if overlay.shortest_distance(open, s, t) is Some {
            let d = overlay.shortest_distance(open, s, t).unwrap();
            overlay.lemma_distance_is_shortest(open, s, t);
            let (nodes, steps) = choose|nodes: Seq<int>, steps: Seq<int>|
                {
                    &&& #[trigger] overlay.is_walk(open, nodes, steps)
                    &&& nodes[0] == s
                    &&& nodes.last() == t
                    &&& overlay.walk_weight(steps) == d
                };
            overlay.lemma_walk_in_full_graph(open, nodes, steps);
            let m = overlay.lemma_shortest_exists(whole, s, t, d);
            overlay.lemma_shortest_is_distance(whole, s, t, m);
        }
    }
}

/// With an estimate that is consistent on the graph, the search that keeps
/// out of foreign rectangles finds on such an overlay a route exactly where
/// the graph itself has one, and the route is as long as the shortest route
/// of the graph; so it is longer by no more than twice the diagonal of a
/// rectangle, however the diagonal is measured.
pub proof fn lemma_shortcut_search_bounded(
    base: &Graph,
    rects: Seq<(usize, usize, usize, usize)>,
    overlay: Graph,
    heuristic: Seq<u32>,
    start: int,
    end: int,
    found: PathResult,
    diagonal: nat,
)
    requires
        base.is_crossed_by(rects, overlay),
        0 <= start < base.node_count(),
        0 <= end < base.node_count(),
        base.consistent(base.all_open(), heuristic, end),
        overlay.consistent(overlay.open_around(start, end), heuristic, end)
            ==> overlay.search_result_exact(overlay.open_around(start, end), start, end, found),
    ensures
        overlay.consistent(overlay.open_around(start, end), heuristic, end),
        found.distance_value() == base.shortest_distance(base.all_open(), start, end),
        base.shortest_distance(base.all_open(), start, end) matches Some(best) ==> (
        found.distance matches Some(d) && best <= d <= best + 2 * diagonal),
{
    let pairs = pairs_before(base.raster_columns_count as int, rects, rects.len() as int);
    base.lemma_pairs_in_range(rects, rects.len() as int);
    base.lemma_joined_are_shortest(pairs);
    base.lemma_estimate_fits_overlay(
        rects,
        base.joined(pairs),
        overlay,
        heuristic,
        end,
        overlay.open_around(start, end),
    );
    base.lemma_overlay_loses_nothing(rects, overlay, start, end);
}

} // verus!
