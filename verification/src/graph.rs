//! The routing graph in compressed adjacency form, and what a walk and a
//! shortest distance in it are.

use vstd::prelude::*;

verus! {

/// One directed adjacency entry: where it leads and how many metres it spans.
#[derive(Clone, Copy, Debug, PartialEq, Eq, Structural)]
pub struct Edge {
    pub destination: u32,
    pub distance: u32,
}

/// A raster graph. `offsets[i].0` is where the edges of node `i` begin in
/// `edges`; the last entry of `offsets` is the sentinel. `offsets[i].1` names
/// the shortcut rectangle whose interior holds node `i`, if any.
pub struct Graph {
    pub offsets: Vec<(u32, Option<usize>)>,
    pub edges: Vec<Edge>,
    pub raster_columns_count: usize,
    pub raster_rows_count: usize,
    pub shortcut_rectangles: Vec<(usize, usize, usize, usize)>,
}

/// Sum of two distances, held at the "unreached" value where it would pass it.
pub open spec fn capped_sum(a: int, b: int) -> int {
    if a + b >= u32::MAX {
        u32::MAX as int
    } else {
        a + b
    }
}

/// A path as returned by a search, read as mathematical node numbers.
pub open spec fn as_ints(path: Seq<usize>) -> Seq<int> {
    path.map_values(|v: usize| v as int)
}

impl Graph {
    /// Number of nodes.
    pub open spec fn node_count(&self) -> int {
        self.offsets@.len() - 1
    }

    /// The adjacency is intact: the offsets never decrease, the sentinel
    /// equals the number of edges, every destination is a node, and the
    /// raster has one cell per node. Node numbers stay below the "unreached"
    /// value.
    pub open spec fn wf(&self) -> bool {
        &&& self.offsets@.len() >= 1
        &&& self.node_count() < u32::MAX
        &&& self.raster_rows_count * self.raster_columns_count == self.node_count()
        &&& forall|i: int, j: int|
            0 <= i <= j <= self.node_count() ==> (#[trigger] self.offsets@[i]).0 <= (
            #[trigger] self.offsets@[j]).0
        &&& self.offsets@[self.node_count()].0 == self.edges@.len()
        &&& forall|k: int|
            0 <= k < self.edges@.len() ==> (#[trigger] self.edges@[k]).destination
                < self.node_count()
    }

    /// Edge number `k` leaves node `u`.
    pub open spec fn leaves(&self, k: int, u: int) -> bool {
        &&& 0 <= u < self.node_count()
        &&& self.offsets@[u].0 <= k < self.offsets@[u + 1].0
    }

    /// The node that edge `k` leads to.
    pub open spec fn target(&self, k: int) -> int {
        self.edges@[k].destination as int
    }

    /// An edge of length `d` leads from `u` to `v`.
    pub open spec fn has_edge(&self, u: int, v: int, d: int) -> bool {
        exists|k: int| #[trigger] self.leaves(k, u) && self.target(k) == v && self.weight(k) == d
    }

    /// The length of edge `k` in metres.
    pub open spec fn weight(&self, k: int) -> int {
        self.edges@[k].distance as int
    }

    /// Node `i` is water: it has at least one edge.
    pub open spec fn is_water_node(&self, i: int) -> bool {
        0 <= i < self.node_count() && self.offsets@[i].0 != self.offsets@[i + 1].0
    }

    /// Edge `back` leads from the target of edge `k` to `u` and is as long as `k`.
    pub open spec fn is_back_edge(&self, back: int, k: int, u: int) -> bool {
        self.leaves(back, self.target(k)) && self.target(back) == u && self.weight(back)
            == self.weight(k)
    }

    /// If edge `k` leaves `u`, some edge leads back.
    pub open spec fn has_way_back(&self, k: int, u: int) -> bool {
        self.leaves(k, u) ==> exists|back: int| #[trigger] self.is_back_edge(back, k, u)
    }

    /// Every edge is stored at both of its endpoints with the same length.
    pub open spec fn is_undirected(&self) -> bool {
        forall|u: int, k: int| #[trigger] self.has_way_back(k, u)
    }

    /// An edge that undoes edge `k` out of `u`.
    pub open spec fn back_edge(&self, k: int, u: int) -> int {
        choose|back: int| #[trigger] self.is_back_edge(back, k, u)
    }

    /// The edges that lead back along a walk, last edge first.
    pub open spec fn reversed_steps(&self, nodes: Seq<int>, steps: Seq<int>) -> Seq<int> {
        Seq::new(
            steps.len(),
            |j: int| self.back_edge(steps[steps.len() - 1 - j], nodes[steps.len() - 1 - j]),
        )
    }

    /// Every node may be entered.
    pub open spec fn all_open(&self) -> Seq<bool> {
        Seq::new(self.node_count() as nat, |v: int| true)
    }

    /// `nodes` is a walk along the edges `steps`: edge `steps[i]` leads from
    /// `nodes[i]` to `nodes[i + 1]`, and every node entered is open.
    pub open spec fn is_walk(&self, open: Seq<bool>, nodes: Seq<int>, steps: Seq<int>) -> bool {
        &&& nodes.len() == steps.len() + 1
        &&& 0 <= nodes[0] < self.node_count()
        &&& forall|i: int|
            0 <= i < steps.len() ==> {
                &&& self.leaves(#[trigger] steps[i], nodes[i])
                &&& self.target(steps[i]) == nodes[i + 1]
                &&& open[nodes[i + 1]]
            }
    }

    /// Total length of the edges `steps`.
    pub open spec fn walk_weight(&self, steps: Seq<int>) -> int
        decreases steps.len(),
    {
        if steps.len() == 0 {
            0
        } else {
            self.walk_weight(steps.drop_last()) + self.weight(steps.last())
        }
    }

    /// Some walk of total length `d` leads from `s` to `t`.
    pub open spec fn connects(&self, open: Seq<bool>, s: int, t: int, d: int) -> bool {
        exists|nodes: Seq<int>, steps: Seq<int>|
            {
                &&& #[trigger] self.is_walk(open, nodes, steps)
                &&& nodes[0] == s
                &&& nodes.last() == t
                &&& self.walk_weight(steps) == d
            }
    }

    /// No walk from `s` to `t` is shorter than `d`.
    pub open spec fn bounds_below(&self, open: Seq<bool>, s: int, t: int, d: int) -> bool {
        forall|nodes: Seq<int>, steps: Seq<int>|
            #[trigger] self.is_walk(open, nodes, steps) && nodes[0] == s && nodes.last() == t ==> d
                <= self.walk_weight(steps)
    }

    /// `d` is the length of a shortest walk from `s` to `t`.
    pub open spec fn is_shortest(&self, open: Seq<bool>, s: int, t: int, d: int) -> bool {
        self.connects(open, s, t, d) && self.bounds_below(open, s, t, d)
    }

    /// The length of a shortest walk from `s` to `t` where it stays below the
    /// "unreached" value, `None` where no such walk exists.
    pub open spec fn shortest_distance(&self, open: Seq<bool>, s: int, t: int) -> Option<int> {
        if exists|d: int| d < u32::MAX && self.is_shortest(open, s, t, d) {
            Some(choose|d: int| d < u32::MAX && self.is_shortest(open, s, t, d))
        } else {
            None
        }
    }

    /// `path` lists the nodes of a walk from `s` to `t` of total length at
    /// most `d`, last node first.
    pub open spec fn is_route_within(
        &self,
        open: Seq<bool>,
        path: Seq<usize>,
        s: int,
        t: int,
        d: int,
    ) -> bool {
        &&& path.len() >= 1
        &&& path[0] == t
        &&& path.last() == s
        &&& exists|steps: Seq<int>| #[trigger]
            self.is_walk(open, as_ints(path).reverse(), steps) && self.walk_weight(steps) <= d
    }

    /// `path` lists the nodes of a walk from `s` to `t` of total length `d`,
    /// last node first.
    pub open spec fn is_route(&self, open: Seq<bool>, path: Seq<usize>, s: int, t: int, d: int) -> bool {
        &&& path.len() >= 1
        &&& path[0] == t
        &&& path.last() == s
        &&& exists|steps: Seq<int>| #[trigger]
            self.is_walk(open, as_ints(path).reverse(), steps) && self.walk_weight(steps) == d
    }

    /// `h` never overestimates across an open edge and is zero at `t`.
    pub open spec fn consistent(&self, open: Seq<bool>, h: Seq<u32>, t: int) -> bool {
        &&& h.len() == self.node_count()
        &&& h[t] == 0
        &&& forall|u: int, k: int| #[trigger]
            self.leaves(k, u) && open[self.target(k)] ==> h[u] <= self.weight(k) + h[self.target(
                k,
            )]
    }

    /// Length of a walk is never negative.
    pub proof fn lemma_weight_nonnegative(&self, steps: Seq<int>)
        ensures
            self.walk_weight(steps) >= 0,
        decreases steps.len(),
    {
        if steps.len() > 0 {
            self.lemma_weight_nonnegative(steps.drop_last());
        }
    }

    /// Length of two runs of edges laid end to end.
    pub proof fn lemma_weight_concat(&self, a: Seq<int>, b: Seq<int>)
        ensures
            self.walk_weight(a + b) == self.walk_weight(a) + self.walk_weight(b),
        decreases b.len(),
    {
        if b.len() == 0 {
            assert(a + b =~= a);
        } else {
            self.lemma_weight_concat(a, b.drop_last());
            assert((a + b).drop_last() =~= a + b.drop_last());
            assert((a + b).last() == b.last());
        }
    }

    /// Length of a single edge.
    pub proof fn lemma_weight_single(&self, k: int)
        ensures
            self.walk_weight(seq![k]) == self.weight(k),
    {
        assert(seq![k].drop_last() =~= Seq::<int>::empty());
        reveal_with_fuel(Graph::walk_weight, 2);
        assert(seq![k].last() == k);
    }

    /// A walk stays a walk when it is cut after `i` edges, and what is cut
    /// off is a walk too.
    pub proof fn lemma_walk_split(&self, open: Seq<bool>, nodes: Seq<int>, steps: Seq<int>, i: int)
        requires
            self.wf(),
            self.is_walk(open, nodes, steps),
            0 <= i <= steps.len(),
        ensures
            self.is_walk(open, nodes.take(i + 1), steps.take(i)),
            self.is_walk(open, nodes.skip(i), steps.skip(i)),
            self.walk_weight(steps) == self.walk_weight(steps.take(i)) + self.walk_weight(
                steps.skip(i),
            ),
            0 <= nodes[i] < self.node_count(),
    {
        assert(steps =~= steps.take(i) + steps.skip(i));
        self.lemma_weight_concat(steps.take(i), steps.skip(i));
        self.lemma_walk_nodes_in_range(open, nodes, steps, i);
        assert forall|j: int| 0 <= j < steps.skip(i).len() implies {
            &&& self.leaves(#[trigger] steps.skip(i)[j], nodes.skip(i)[j])
            &&& self.target(steps.skip(i)[j]) == nodes.skip(i)[j + 1]
            &&& open[nodes.skip(i)[j + 1]]
        } by {
            assert(self.leaves(steps[i + j], nodes[i + j]));
        }
        assert forall|j: int| 0 <= j < steps.take(i).len() implies {
            &&& self.leaves(#[trigger] steps.take(i)[j], nodes.take(i + 1)[j])
            &&& self.target(steps.take(i)[j]) == nodes.take(i + 1)[j + 1]
            &&& open[nodes.take(i + 1)[j + 1]]
        } by {
            assert(self.leaves(steps[j], nodes[j]));
        }
    }

    /// Every node of a walk is a node of the graph.
    pub proof fn lemma_walk_nodes_in_range(
        &self,
        open: Seq<bool>,
        nodes: Seq<int>,
        steps: Seq<int>,
        i: int,
    )
        requires
            self.wf(),
            self.is_walk(open, nodes, steps),
            0 <= i < nodes.len(),
        ensures
            0 <= nodes[i] < self.node_count(),
    {
        if i > 0 {
            assert(self.leaves(steps[i - 1], nodes[i - 1]));
            self.lemma_edge_in_range(steps[i - 1], nodes[i - 1]);
        }
    }

    /// An edge that leaves a node is one of the stored edges.
    pub proof fn lemma_edge_in_range(&self, k: int, u: int)
        requires
            self.wf(),
            self.leaves(k, u),
        ensures
            0 <= k < self.edges@.len(),
            0 <= self.target(k) < self.node_count(),
    {
        assert(self.offsets@[u + 1].0 <= self.offsets@[self.node_count()].0);
        assert(self.edges@[k].destination < self.node_count());
    }

    /// Two walks that meet end to start make one walk.
    pub proof fn lemma_walk_join(
        &self,
        open: Seq<bool>,
        nodes1: Seq<int>,
        steps1: Seq<int>,
        nodes2: Seq<int>,
        steps2: Seq<int>,
    )
        requires
            self.is_walk(open, nodes1, steps1),
            self.is_walk(open, nodes2, steps2),
            nodes1.last() == nodes2[0],
        ensures
            self.is_walk(open, nodes1 + nodes2.skip(1), steps1 + steps2),
            self.walk_weight(steps1 + steps2) == self.walk_weight(steps1) + self.walk_weight(steps2),
            (nodes1 + nodes2.skip(1))[0] == nodes1[0],
            (nodes1 + nodes2.skip(1)).last() == nodes2.last(),
    {
        self.lemma_weight_concat(steps1, steps2);
        let nodes = nodes1 + nodes2.skip(1);
        let steps = steps1 + steps2;
        assert forall|i: int| 0 <= i < steps.len() implies {
            &&& self.leaves(#[trigger] steps[i], nodes[i])
            &&& self.target(steps[i]) == nodes[i + 1]
            &&& open[nodes[i + 1]]
        } by {
            if i < steps1.len() {
                assert(self.leaves(steps1[i], nodes1[i]));
                if i + 1 == nodes1.len() {
                }
            } else {
                let j = i - steps1.len();
                assert(self.leaves(steps2[j], nodes2[j]));
                assert(steps[i] == steps2[j]);
                if j == 0 {
                    assert(nodes[i] == nodes1.last());
                } else {
                    assert(nodes[i] == nodes2.skip(1)[j - 1]);
                }
                assert(nodes[i + 1] == nodes2.skip(1)[j]);
            }
        }
    }

    /// The first `j` edges on the way back are as long as the last `j` edges
    /// on the way out.
    pub proof fn lemma_reversed_weight(&self, nodes: Seq<int>, steps: Seq<int>, j: int)
        requires
            self.wf(),
            self.is_undirected(),
            self.is_walk(self.all_open(), nodes, steps),
            0 <= j <= steps.len(),
        ensures
            self.walk_weight(self.reversed_steps(nodes, steps).take(j)) == self.walk_weight(
                steps.skip(steps.len() - j),
            ),
        decreases j,
    {
        let back = self.reversed_steps(nodes, steps);
        let m = steps.len() as int;
        if j == 0 {
            assert(back.take(0) =~= Seq::<int>::empty());
            assert(steps.skip(m) =~= Seq::<int>::empty());
        } else {
            self.lemma_reversed_weight(nodes, steps, j - 1);
            let k = steps[m - j];
            assert(self.leaves(k, nodes[m - j]));
            assert(self.has_way_back(k, nodes[m - j]));
            assert(self.is_back_edge(self.back_edge(k, nodes[m - j]), k, nodes[m - j]));
            assert(back.take(j).drop_last() =~= back.take(j - 1));
            assert(back.take(j).last() == back[j - 1]);
            assert(steps.skip(m - j) =~= seq![k] + steps.skip(m - j + 1));
            self.lemma_weight_concat(seq![k], steps.skip(m - j + 1));
            self.lemma_weight_single(k);
        }
    }

    /// In an undirected graph a walk can be walked back, edge by edge.
    pub proof fn lemma_walk_reversed(&self, nodes: Seq<int>, steps: Seq<int>)
        requires
            self.wf(),
            self.is_undirected(),
            self.is_walk(self.all_open(), nodes, steps),
        ensures
            self.is_walk(self.all_open(), nodes.reverse(), self.reversed_steps(nodes, steps)),
            self.walk_weight(self.reversed_steps(nodes, steps)) == self.walk_weight(steps),
            nodes.reverse()[0] == nodes.last(),
            nodes.reverse().last() == nodes[0],
    {
        let back = self.reversed_steps(nodes, steps);
        let rev = nodes.reverse();
        let m = steps.len() as int;
        self.lemma_walk_nodes_in_range(self.all_open(), nodes, steps, m);
        assert forall|i: int| 0 <= i < back.len() implies {
            &&& self.leaves(#[trigger] back[i], rev[i])
            &&& self.target(back[i]) == rev[i + 1]
            &&& self.all_open()[rev[i + 1]]
        } by {
            let k = steps[m - 1 - i];
            let u = nodes[m - 1 - i];
            assert(self.leaves(k, u));
            assert(self.has_way_back(k, u));
            assert(self.is_back_edge(self.back_edge(k, u), k, u));
            assert(rev[i] == nodes[m - i]);
            assert(rev[i + 1] == u);
        }
        self.lemma_reversed_weight(nodes, steps, m);
        assert(back.take(m) =~= back);
        assert(steps.skip(0) =~= steps);
    }

    /// A node by itself is a walk of length zero.
    pub proof fn lemma_walk_trivial(&self, open: Seq<bool>, s: int)
        requires
            0 <= s < self.node_count(),
        ensures
            self.is_walk(open, seq![s], Seq::<int>::empty()),
            self.walk_weight(Seq::<int>::empty()) == 0,
            self.connects(open, s, s, 0),
    {
        assert(self.is_walk(open, seq![s], Seq::<int>::empty()));
        assert(seq![s].last() == s);
    }

    /// There is at most one shortest length.
    pub proof fn lemma_shortest_unique(&self, open: Seq<bool>, s: int, t: int, d1: int, d2: int)
        requires
            self.is_shortest(open, s, t, d1),
            self.is_shortest(open, s, t, d2),
        ensures
            d1 == d2,
    {
        let (n1, v1) = choose|nodes: Seq<int>, steps: Seq<int>|
            {
                &&& #[trigger] self.is_walk(open, nodes, steps)
                &&& nodes[0] == s
                &&& nodes.last() == t
                &&& self.walk_weight(steps) == d1
            };
        let (n2, v2) = choose|nodes: Seq<int>, steps: Seq<int>|
            {
                &&& #[trigger] self.is_walk(open, nodes, steps)
                &&& nodes[0] == s
                &&& nodes.last() == t
                &&& self.walk_weight(steps) == d2
            };
        assert(d2 <= self.walk_weight(v1));
        assert(d1 <= self.walk_weight(v2));
    }

    /// A shortest length below the "unreached" value is the shortest distance.
    pub proof fn lemma_shortest_is_distance(&self, open: Seq<bool>, s: int, t: int, d: int)
        requires
            self.is_shortest(open, s, t, d),
            d < u32::MAX,
        ensures
            self.shortest_distance(open, s, t) == Some(d),
    {
        let c = choose|c: int| c < u32::MAX && self.is_shortest(open, s, t, c);
        self.lemma_shortest_unique(open, s, t, c, d);
    }

    /// Where every walk from `s` to `t` is at least as long as the
    /// "unreached" value, there is no shortest distance.
    pub proof fn lemma_unreachable_is_none(&self, open: Seq<bool>, s: int, t: int)
        requires
            self.bounds_below(open, s, t, u32::MAX as int),
        ensures
            self.shortest_distance(open, s, t).is_none(),
    {
        if exists|d: int| d < u32::MAX && self.is_shortest(open, s, t, d) {
            let d = choose|d: int| d < u32::MAX && self.is_shortest(open, s, t, d);
            let (n1, v1) = choose|nodes: Seq<int>, steps: Seq<int>|
                {
                    &&& #[trigger] self.is_walk(open, nodes, steps)
                    &&& nodes[0] == s
                    &&& nodes.last() == t
                    &&& self.walk_weight(steps) == d
                };
            assert(u32::MAX <= self.walk_weight(v1));
        }
    }
}

} // verus!
