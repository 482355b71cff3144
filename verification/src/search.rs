//! Forward searches over the graph: Dijkstra, A* and A* that keeps out of
//! foreign shortcut rectangles. All three pop the closest frontier entry,
//! relax its edges and stop when the target is popped.

use crate::frontier::{
    closed_trace, frontier_ok, lemma_closed, lemma_exhausted, lemma_popped, lemma_relaxed,
    lemma_skipped, lemma_start, lemma_target_first, lemma_total_nonnegative, lemma_total_update,
    lex_below, no_estimate, reached, relaxed_trace, scanned, shape_ok, start_trace, total,
    tree_ok, Task, Trace,
};
use crate::graph::{as_ints, capped_sum, Graph};
use crate::heap_node::HeapNode;
use crate::rounds::{
    capped_count, expand, first_entry, is_parent_chain, is_search_result, lemma_first_entry,
    no_other, popped, relax_upto, search_after, search_stops, Side,
};
use crate::state::{AlgorithmState, UNREACHED};
use vstd::prelude::*;

verus! {

/// Outcome of a search: the nodes of the route from target back to source,
/// its length in metres, and how many frontier entries were popped. Where no
/// route exists, `path` and `distance` are both `None`.
pub struct PathResult {
    pub path: Option<Vec<usize>>,
    pub distance: Option<u32>,
    pub heap_pops: usize,
}

impl PathResult {
    /// The distance as a mathematical integer.
    pub open spec fn distance_value(&self) -> Option<int> {
        match self.distance {
            Some(d) => Some(d as int),
            None => None,
        }
    }
}

/// The estimate that a search adds to its queue keys.
pub(crate) open spec fn estimate_of(heuristic: Option<&Vec<u32>>, n: int) -> Seq<u32> {
    match heuristic {
        Some(h) => h@,
        None => no_estimate(n),
    }
}

/// The nodes that a search may enter: all of them, or those that a search
/// between the two nodes of `prune` may enter when it keeps out of foreign
/// rectangles.
pub(crate) open spec fn open_of(graph: &Graph, prune: Option<(usize, usize)>) -> Seq<bool> {
    match prune {
        Some((s, t)) => graph.open_around(s as int, t as int),
        None => graph.all_open(),
    }
}

pub(crate) open spec fn task_of(
    graph: &Graph,
    start: usize,
    heuristic: Option<&Vec<u32>>,
    prune: Option<(usize, usize)>,
) -> Task {
    Task {
        open: open_of(graph, prune),
        h: estimate_of(heuristic, graph.node_count()),
        src: start as int,
    }
}

impl Graph {
    /// Every node of the path that `result` holds is a node of the graph.
    pub open spec fn path_in_graph(&self, result: PathResult) -> bool {
        result.path matches Some(p) ==> forall|i: int|
            0 <= i < p@.len() ==> #[trigger] p@[i] < self.node_count()
    }

    /// What every search guarantees: it finds a route exactly where one
    /// shorter than the "unreached" value exists, and the route it returns is
    /// a walk from `start` to `end` no longer than the distance it reports,
    /// which stays below the "unreached" value.
    pub open spec fn search_result_ok(
        &self,
        open: Seq<bool>,
        start: int,
        end: int,
        result: PathResult,
    ) -> bool {
        &&& result.heap_pops >= 1
        &&& result.path.is_some() == result.distance.is_some()
        &&& result.distance.is_some() == self.shortest_distance(open, start, end).is_some()
        &&& (result.distance matches Some(d) ==> d < u32::MAX)
        &&& (result.distance matches Some(d) ==> result.path matches Some(p) && self.is_route_within(
            open,
            p@,
            start,
            end,
            d as int,
        ))
    }

    /// What an optimal search guarantees on top: the distance is the shortest
    /// distance, and the route has exactly that length.
    pub open spec fn search_result_exact(
        &self,
        open: Seq<bool>,
        start: int,
        end: int,
        result: PathResult,
    ) -> bool {
        &&& self.search_result_ok(open, start, end, result)
        &&& result.distance_value() == self.shortest_distance(open, start, end)
        &&& (result.distance matches Some(d) ==> result.path matches Some(p) && self.is_route(
            open,
            p@,
            start,
            end,
            d as int,
        ))
    }

    /// Some walk from `s` to `t` is a shortest one.
    pub proof fn lemma_shortest_exists(&self, open: Seq<bool>, s: int, t: int, d: int) -> (m: int)
        requires
            self.connects(open, s, t, d),
        ensures
            0 <= m <= d,
            self.is_shortest(open, s, t, m),
        decreases d,
    {
        let (nodes, steps) = choose|nodes: Seq<int>, steps: Seq<int>|
            {
                &&& #[trigger] self.is_walk(open, nodes, steps)
                &&& nodes[0] == s
                &&& nodes.last() == t
                &&& self.walk_weight(steps) == d
            };
        self.lemma_weight_nonnegative(steps);
        if self.bounds_below(open, s, t, d) {
            d
        } else {
            let (nodes2, steps2) = choose|nodes2: Seq<int>, steps2: Seq<int>|
                #[trigger] self.is_walk(open, nodes2, steps2) && nodes2[0] == s && nodes2.last()
                    == t && !(d <= self.walk_weight(steps2));
            self.lemma_weight_nonnegative(steps2);
            self.lemma_shortest_exists(open, s, t, self.walk_weight(steps2))
        }
    }

    /// A route no longer than `d` shows that a shortest distance exists.
    pub proof fn lemma_route_gives_distance(
        &self,
        open: Seq<bool>,
        path: Seq<usize>,
        s: int,
        t: int,
        d: int,
    )
        requires
            self.is_route_within(open, path, s, t, d),
            d < u32::MAX,
        ensures
            self.shortest_distance(open, s, t) matches Some(m) && m <= d,
    {
        let steps = choose|steps: Seq<int>| #[trigger]
            self.is_walk(open, as_ints(path).reverse(), steps) && self.walk_weight(steps) <= d;
        let nodes = as_ints(path).reverse();
        assert(nodes[0] == s);
        assert(nodes.last() == t);
        let m = self.lemma_shortest_exists(open, s, t, self.walk_weight(steps));
        self.lemma_shortest_is_distance(open, s, t, m);
    }

    /// A route no longer than a lower bound of all walks is a shortest one.
    pub proof fn lemma_route_is_shortest(
        &self,
        open: Seq<bool>,
        path: Seq<usize>,
        s: int,
        t: int,
        d: int,
    )
        requires
            self.is_route_within(open, path, s, t, d),
            self.bounds_below(open, s, t, d),
        ensures
            self.is_route(open, path, s, t, d),
            self.is_shortest(open, s, t, d),
    {
        let steps = choose|steps: Seq<int>| #[trigger]
            self.is_walk(open, as_ints(path).reverse(), steps) && self.walk_weight(steps) <= d;
        let nodes = as_ints(path).reverse();
        assert(nodes[0] == s);
        assert(nodes.last() == t);
        assert(d <= self.walk_weight(steps));
    }

    /// Node `node` lies strictly inside `rect`, given as (left, top, right,
    /// bottom) in raster columns and rows.
    pub open spec fn inside_rect(&self, node: int, rect: (usize, usize, usize, usize)) -> bool {
        let col = node % (self.raster_columns_count as int);
        let row = node / (self.raster_columns_count as int);
        rect.0 < col && rect.1 < row && col < rect.2 && row < rect.3
    }

    /// A search between `s` and `t` that keeps out of foreign rectangles may
    /// enter node `v`: `v` lies in no rectangle interior, or `s` or `t` lies
    /// inside the rectangle that `v` is marked with.
    pub open spec fn admits(&self, v: int, s: int, t: int) -> bool {
        match self.offsets@[v].1 {
            None => true,
            Some(r) => r < self.shortcut_rectangles@.len() && (self.inside_rect(
                s,
                self.shortcut_rectangles@[r as int],
            ) || self.inside_rect(t, self.shortcut_rectangles@[r as int])),
        }
    }

    /// The nodes that a search between `s` and `t` may enter when it keeps
    /// out of foreign rectangles.
    pub open spec fn open_around(&self, s: int, t: int) -> Seq<bool> {
        Seq::new(self.node_count() as nat, |v: int| self.admits(v, s, t))
    }

    /// The path that `result` holds passes no node twice.
    pub open spec fn path_is_simple(&self, result: PathResult) -> bool {
        result.path matches Some(p) ==> p@.no_duplicates()
    }

    /// `result` is the whole result of the forward search from `start` to
    /// `end` that enters the nodes `open` and adds the estimate `h`: the
    /// route, the distance and the number of pops are those of the one
    /// course that the search takes.
    pub open spec fn search_result_is(
        &self,
        open: Seq<bool>,
        h: Seq<u32>,
        start: int,
        end: int,
        result: PathResult,
    ) -> bool {
        &&& exists|rounds: nat| #[trigger] is_search_result(self, open, h, start, end, rounds, result)
        &&& self.path_is_simple(result)
        &&& (start == end ==> result.heap_pops == 1)
    }

    /// Whether `node` lies strictly inside `rect`.
    pub fn is_node_inside_rect(&self, node: usize, rect: &(usize, usize, usize, usize)) -> (b: bool)
        requires
            self.raster_columns_count > 0,
        ensures
            b == self.inside_rect(node as int, *rect),
    {
        rect.0 < node % self.raster_columns_count && rect.1 < node / self.raster_columns_count
            && node % self.raster_columns_count < rect.2 && node / self.raster_columns_count
            < rect.3
    }

    /// Dijkstra's search from `start` to `end`. Returns the shortest distance
    /// and a route of that length, or neither where `end` cannot be reached.
    /// A distance is held in a `u32` whose greatest value marks a node as
    /// unreached, so a route that long or longer counts as none. The route
    /// passes no node twice. Which of the shortest routes is returned, and
    /// after how many pops, is fixed round by round: see `search_result_is`.
    pub fn dijkstra(&self, start: usize, end: usize, state: &mut AlgorithmState) -> (result:
        PathResult)
        requires
            self.wf(),
            start < self.node_count(),
            end < self.node_count(),
            old(state).sized_for(self.node_count()),
        ensures
            final(state).sized_for(self.node_count()),
            self.path_in_graph(result),
            self.search_result_exact(self.all_open(), start as int, end as int, result),
            self.search_result_is(
                self.all_open(),
                crate::rounds::no_estimates(self.node_count()),
                start as int,
                end as int,
                result,
            ),
    {
        let result = run_search(self, start, end, None, None, state);
        proof {
            let open = self.all_open();
            assert(self.consistent(open, no_estimate(self.node_count()), end as int));
            lemma_settle(self, open, start as int, end as int, result, true);
        }
        result
    }

    /// A* search from `start` to `end`. `heuristic[v]` estimates the distance
    /// from node `v` to `end` and is added to the key under which `v` is
    /// queued. A route is found wherever one exists; with a consistent
    /// estimate, which `is_consistent` tests, it is a shortest one. The
    /// route passes no node twice, and the whole result is fixed round by
    /// round: see `search_result_is`.
    pub fn a_star(
        &self,
        start: usize,
        end: usize,
        heuristic: &Vec<u32>,
        state: &mut AlgorithmState,
    ) -> (result: PathResult)
        requires
            self.wf(),
            start < self.node_count(),
            end < self.node_count(),
            heuristic@.len() == self.node_count(),
            old(state).sized_for(self.node_count()),
        ensures
            final(state).sized_for(self.node_count()),
            self.path_in_graph(result),
            self.search_result_ok(self.all_open(), start as int, end as int, result),
            self.consistent(self.all_open(), heuristic@, end as int) ==> self.search_result_exact(
                self.all_open(),
                start as int,
                end as int,
                result,
            ),
            self.search_result_is(self.all_open(), heuristic@, start as int, end as int, result),
    {
        let result = run_search(self, start, end, Some(heuristic), None, state);
        proof {
            let open = self.all_open();
            lemma_settle(
                self,
                open,
                start as int,
                end as int,
                result,
                self.consistent(open, heuristic@, end as int),
            );
        }
        result
    }

    /// A* search that never enters the interior of a shortcut rectangle
    /// unless `start` or `end` lies inside that rectangle. It finds a route
    /// wherever one exists that keeps to the open nodes; with a consistent
    /// estimate it is a shortest such route. A node marked with a rectangle
    /// is open where `start` or `end` lies inside that very rectangle, and
    /// every node without a mark is open. The route passes no node twice,
    /// and the whole result is fixed round by round: see `search_result_is`.
    /// On an overlay with a shortcut between every two border cells of
    /// rectangles that do not overlap, the shortest route that keeps to the
    /// open nodes is as short as the shortest route of the graph underneath:
    /// see `lemma_overlay_loses_nothing`.
    pub fn shortcut_a_star(
        &self,
        start: usize,
        end: usize,
        heuristic: &Vec<u32>,
        state: &mut AlgorithmState,
    ) -> (result: PathResult)
        requires
            self.wf(),
            start < self.node_count(),
            end < self.node_count(),
            heuristic@.len() == self.node_count(),
            old(state).sized_for(self.node_count()),
        ensures
            final(state).sized_for(self.node_count()),
            self.path_in_graph(result),
            self.search_result_ok(
                self.open_around(start as int, end as int),
                start as int,
                end as int,
                result,
            ),
            self.consistent(self.open_around(start as int, end as int), heuristic@, end as int)
                ==> self.search_result_exact(
                self.open_around(start as int, end as int),
                start as int,
                end as int,
                result,
            ),
            self.search_result_is(
                self.open_around(start as int, end as int),
                heuristic@,
                start as int,
                end as int,
                result,
            ),
    {
        let result = run_search(self, start, end, Some(heuristic), Some((start, end)), state);
        proof {
            let open = self.open_around(start as int, end as int);
            lemma_settle(
                self,
                open,
                start as int,
                end as int,
                result,
                self.consistent(open, heuristic@, end as int),
            );
        }
        result
    }
}

/// What the relaxation loop hands to its callers.
pub(crate) open spec fn search_outcome(
    g: &Graph,
    open: Seq<bool>,
    start: int,
    end: int,
    result: PathResult,
    exact: bool,
) -> bool {
    &&& result.heap_pops >= 1
    &&& result.path.is_some() == result.distance.is_some()
    &&& g.path_in_graph(result)
    &&& (result.distance matches Some(d) ==> {
        &&& d < UNREACHED
        &&& result.path matches Some(p) && g.is_route_within(open, p@, start, end, d as int)
        &&& exact ==> g.bounds_below(open, start, end, d as int)
    })
    &&& (result.distance is None ==> g.bounds_below(open, start, end, UNREACHED as int))
}

pub(crate) proof fn lemma_settle(g: &Graph, open: Seq<bool>, start: int, end: int, result: PathResult, exact: bool)
    requires
        search_outcome(g, open, start, end, result, exact),
    ensures
        g.search_result_ok(open, start, end, result),
        exact ==> g.search_result_exact(open, start, end, result),
{
    match result.distance {
        Some(d) => {
            let p = result.path->0;
            g.lemma_route_gives_distance(open, p@, start, end, d as int);
            if exact {
                g.lemma_route_is_shortest(open, p@, start, end, d as int);
                g.lemma_shortest_is_distance(open, start, end, d as int);
            }
        },
        None => {
            g.lemma_unreachable_is_none(open, start, end);
        },
    }
}

/// Whether the search must keep out of `dest`.
fn is_shut(graph: &Graph, prune: Option<(usize, usize)>, dest: usize) -> (b: bool)
    requires
        dest < graph.node_count(),
        graph.raster_columns_count > 0,
    ensures
        b == !open_of(graph, prune)[dest as int],
{
    match prune {
        None => false,
        Some((s, t)) => match graph.offsets[dest].1 {
            None => false,
            Some(r) => {
                if r < graph.shortcut_rectangles.len() {
                    let rect = &graph.shortcut_rectangles[r];
                    !(graph.is_node_inside_rect(s, rect) || graph.is_node_inside_rect(t, rect))
                } else {
                    true
                }
            },
        },
    }
}

/// The estimate at `v`.
fn estimate_at(heuristic: Option<&Vec<u32>>, v: usize, Ghost(n): Ghost<int>) -> (h: u32)
    requires
        v < n,
        heuristic matches Some(table) ==> table@.len() == n,
    ensures
        h == estimate_of(heuristic, n)[v as int],
{
    match heuristic {
        None => 0,
        Some(table) => table[v],
    }
}

/// The key under which a node is queued: its distance plus its estimate,
/// held at the "unreached" value where the sum would pass it.
fn queue_key(reach: u32, estimate: u32) -> (key: u32)
    ensures
        key == capped_sum(reach as int, estimate as int),
{
    let sum: u64 = reach as u64 + estimate as u64;
    if sum >= UNREACHED as u64 {
        UNREACHED
    } else {
        sum as u32
    }
}

/// `more` pops more, counted without overflow.
pub(crate) fn count_pops(pops: usize, more: usize) -> (n: usize)
    ensures
        n == capped_count(pops + more),
{
    if pops <= usize::MAX - more {
        pops + more
    } else {
        usize::MAX
    }
}

/// Follows the parent pointers from `from` to the source and appends every
/// node passed after `from` to `nodes`. Returns the edges of the walk from
/// the source to `from`.
pub(crate) fn extend_to_root(
    dist: &Vec<u32>,
    parent: &Vec<u32>,
    from: usize,
    root: usize,
    nodes: &mut Vec<usize>,
    Ghost(g): Ghost<&Graph>,
    Ghost(task): Ghost<Task>,
    Ghost(tr): Ghost<Trace>,
) -> (steps: Ghost<Seq<int>>)
    requires
        shape_ok(g, task, dist@, parent@, tr),
        tree_ok(g, task, dist@, parent@, tr),
        from < g.node_count(),
        root == task.src,
        dist@[from as int] < UNREACHED,
    ensures
        final(nodes)@.len() >= old(nodes)@.len(),
        final(nodes)@.take(old(nodes)@.len() as int) == old(nodes)@,
        forall|i: int|
            old(nodes)@.len() <= i < final(nodes)@.len() ==> #[trigger] final(nodes)@[i]
                < g.node_count(),
        ({
            let chain = seq![from] + final(nodes)@.skip(old(nodes)@.len() as int);
            &&& chain.last() == root
            &&& g.is_walk(task.open, as_ints(chain).reverse(), steps@)
            &&& g.walk_weight(steps@) <= dist@[from as int]
            &&& is_parent_chain(parent@, chain, from as int, root as int)
            &&& chain.no_duplicates()
        }),
{
    let ghost base = nodes@;
    let ghost mut chain: Seq<usize> = seq![from];
    let ghost mut walk: Seq<int> = seq![from as int];
    let ghost mut steps: Seq<int> = Seq::empty();
    let mut cur: usize = from;
    proof {
        assert(as_ints(seq![from] + nodes@.skip(base.len() as int)).reverse() =~= walk);
    }
    while cur != root
        invariant
            shape_ok(g, task, dist@, parent@, tr),
            tree_ok(g, task, dist@, parent@, tr),
            root == task.src,
            from < g.node_count(),
            cur < g.node_count(),
            dist@[cur as int] < UNREACHED,
            nodes@.len() >= base.len(),
            nodes@.take(base.len() as int) == base,
            forall|i: int| base.len() <= i < nodes@.len() ==> #[trigger] nodes@[i] < g.node_count(),
            walk == as_ints(seq![from] + nodes@.skip(base.len() as int)).reverse(),
            walk.len() >= 1,
            walk[0] == cur,
            (seq![from] + nodes@.skip(base.len() as int)).last() == cur,
            g.is_walk(task.open, walk, steps),
            g.walk_weight(steps) + dist@[cur as int] <= dist@[from as int],
            chain == seq![from] + nodes@.skip(base.len() as int),
            chain.no_duplicates(),
            chain[0] == from,
            forall|i: int|
                0 <= i < chain.len() - 1 ==> (#[trigger] chain[i]) != root && chain[i + 1]
                    == parent@[chain[i] as int],
            forall|i: int|
                0 <= i < chain.len() - 1 ==> lex_below(
                    dist@[cur as int] as int,
                    tr.hops[cur as int],
                    dist@[(#[trigger] chain[i]) as int] as int,
                    tr.hops[chain[i] as int],
                ),
        decreases dist@[cur as int], tr.hops[cur as int],
    {
        assert(reached(dist@, cur as int));
        let up: usize = parent[cur] as usize;
        let ghost k = tr.steps[cur as int];
        let ghost before = nodes@;
        nodes.push(up);
        proof {
            let walk2 = seq![up as int] + walk;
            let steps2 = seq![k] + steps;
            g.lemma_weight_concat(seq![k], steps);
            g.lemma_weight_single(k);
            assert forall|i: int| 0 <= i < steps2.len() implies {
                &&& g.leaves(#[trigger] steps2[i], walk2[i])
                &&& g.target(steps2[i]) == walk2[i + 1]
                &&& task.open[walk2[i + 1]]
            } by {
                if i > 0 {
                    assert(g.leaves(steps[i - 1], walk[i - 1]));
                    assert(steps2[i] == steps[i - 1]);
                    assert(walk2[i] == walk[i - 1]);
                    assert(walk2[i + 1] == walk[i]);
                }
            }
            let chain_old = seq![from] + before.skip(base.len() as int);
            let chain_new = seq![from] + nodes@.skip(base.len() as int);
            assert(chain_new =~= chain_old.push(up));
            assert(as_ints(chain_new) =~= as_ints(chain_old).push(up as int));
            assert(as_ints(chain_new).reverse() =~= walk2);
            assert(nodes@.take(base.len() as int) =~= before.take(base.len() as int));
            walk = walk2;
            steps = steps2;
            let longer = chain.push(up);
            assert(longer =~= chain_new);
            assert forall|i: int| 0 <= i < longer.len() - 1 implies lex_below(
                dist@[up as int] as int,
                tr.hops[up as int],
                dist@[(#[trigger] longer[i]) as int] as int,
                tr.hops[longer[i] as int],
            ) by {
                if i < chain.len() - 1 {
                    assert(lex_below(
                        dist@[cur as int] as int,
                        tr.hops[cur as int],
                        dist@[chain[i] as int] as int,
                        tr.hops[chain[i] as int],
                    ));
                } else {
                    assert(longer[i] == cur);
                }
            }
            assert(longer.no_duplicates()) by {
                assert forall|i: int, j: int|
                    0 <= i < longer.len() && 0 <= j < longer.len() && i != j implies longer[i]
                    != longer[j] by {
                    if i < chain.len() && j < chain.len() {
                    } else if i < chain.len() {
                        assert(lex_below(
                            dist@[up as int] as int,
                            tr.hops[up as int],
                            dist@[longer[i] as int] as int,
                            tr.hops[longer[i] as int],
                        ));
                    } else {
                        assert(lex_below(
                            dist@[up as int] as int,
                            tr.hops[up as int],
                            dist@[longer[j] as int] as int,
                            tr.hops[longer[j] as int],
                        ));
                    }
                }
            }
            assert forall|i: int| 0 <= i < longer.len() - 1 implies (#[trigger] longer[i]) != root
                && longer[i + 1] == parent@[longer[i] as int] by {
                if i < chain.len() - 1 {
                    assert(chain[i] != root && chain[i + 1] == parent@[chain[i] as int]);
                }
            }
            chain = longer;
        }
        cur = up;
    }
    Ghost(steps)
}

/// The relaxation loop shared by the forward searches. `heuristic` is the
/// estimate added to queue keys, if any; `prune` names the two rectangles
/// whose interiors stay open, if interiors are to be kept out of.
fn run_search(
    graph: &Graph,
    start: usize,
    end: usize,
    heuristic: Option<&Vec<u32>>,
    prune: Option<(usize, usize)>,
    state: &mut AlgorithmState,
) -> (out: PathResult)
    requires
        graph.wf(),
        start < graph.node_count(),
        end < graph.node_count(),
        heuristic matches Some(table) ==> table@.len() == graph.node_count(),
        old(state).sized_for(graph.node_count()),
    ensures
        final(state).sized_for(graph.node_count()),
        search_outcome(
            graph,
            open_of(graph, prune),
            start as int,
            end as int,
            out,
            graph.consistent(
                open_of(graph, prune),
                estimate_of(heuristic, graph.node_count()),
                end as int,
            ),
        ),
        graph.search_result_is(
            open_of(graph, prune),
            estimate_of(heuristic, graph.node_count()),
            start as int,
            end as int,
            out,
        ),
{
    let ghost n = graph.node_count();
    let ghost task = task_of(graph, start, heuristic, prune);
    assert(graph.raster_columns_count > 0) by (nonlinear_arith)
        requires
            graph.raster_rows_count * graph.raster_columns_count == graph.node_count(),
            graph.node_count() > 0,
    ;
    state.reset();
    state.distances[start] = 0;
    state.queue.push(HeapNode { id: start as u32, distance: 0 });
    let mut heap_pops: usize = 0;
    let ghost mut tr = start_trace(n, start as int);
    let ghost mut rounds: nat = 0;
    proof {
        broadcast use vstd::multiset::group_multiset_axioms;

        lemma_start(graph, task, state.distances@, state.parent_nodes@, state.queue@);
        let side = search_after(graph, task.open, task.h, start as int, 0);
        assert(state.distances@ =~= side.dist);
        assert(state.parent_nodes@ =~= side.parent);
        assert(state.queue@ =~= side.queue);
    }
    loop
        invariant
            graph.wf(),
            graph.raster_columns_count > 0,
            state.distances@ == search_after(graph, task.open, task.h, start as int, rounds).dist,
            state.parent_nodes@ == search_after(
                graph,
                task.open,
                task.h,
                start as int,
                rounds,
            ).parent,
            state.queue@ == search_after(graph, task.open, task.h, start as int, rounds).queue,
            forall|i: nat|
                i < rounds ==> !search_stops(
                    #[trigger] search_after(graph, task.open, task.h, start as int, i),
                    end as int,
                ),
            heap_pops == capped_count(rounds as int),
            start == end ==> rounds == 0,
            n == graph.node_count(),
            task == task_of(graph, start, heuristic, prune),
            start < n,
            end < n,
            heuristic matches Some(table) ==> table@.len() == n,
            state.sized_for(n),
            state.queue.wf(),
            frontier_ok(
                graph,
                task,
                state.distances@,
                state.parent_nodes@,
                state.queue@,
                tr,
                -1,
            ),
            !tr.closed.contains(end as int),
            heap_pops == 0 ==> state.queue@.len() > 0,
        decreases total(state.distances@), state.queue@.len(),
    {
        let ghost q0 = state.queue@;
        let ghost total0 = total(state.distances@);
        proof {
            lemma_total_nonnegative(state.distances@);
        }
        let ghost side = search_after(graph, task.open, task.h, start as int, rounds);
        let taken = state.queue.pop();
        let node = match taken {
            None => {
                proof {
                    lemma_exhausted(
                        graph,
                        task,
                        state.distances@,
                        state.parent_nodes@,
                        q0,
                        tr,
                        end as int,
                    );
                }
                let out = PathResult { path: None, distance: None, heap_pops };
                proof {
                    assert(is_search_result(
                        graph,
                        task.open,
                        task.h,
                        start as int,
                        end as int,
                        rounds,
                        out,
                    ));
                }
                return out;
            },
            Some(node) => node,
        };
        proof {
            broadcast use vstd::multiset::group_multiset_axioms;

            lemma_popped(graph, task, state.distances@, state.parent_nodes@, q0, tr, node);
            lemma_first_entry(q0, node);
            vstd::multiset::axiom_count_le_len(q0, node);
            if rounds == 0 {
                assert(node == HeapNode { id: start as u32, distance: 0 });
            }
        }
        heap_pops = count_pops(heap_pops, 1);
        let u: usize = node.id as usize;
        if u == end {
            proof {
                if graph.consistent(task.open, task.h, end as int) {
                    lemma_target_first(
                        graph,
                        task,
                        state.distances@,
                        state.parent_nodes@,
                        q0,
                        tr,
                        node,
                    );
                }
            }
            let mut nodes: Vec<usize> = Vec::new();
            nodes.push(end);
            let steps = extend_to_root(
                &state.distances,
                &state.parent_nodes,
                end,
                start,
                &mut nodes,
                Ghost(graph),
                Ghost(task),
                Ghost(tr),
            );
            let d: u32 = state.distances[end];
            proof {
                assert(nodes@ =~= seq![end] + nodes@.skip(1));
            }
            let out = PathResult { path: Some(nodes), distance: Some(d), heap_pops };
            proof {
                assert(is_search_result(
                    graph,
                    task.open,
                    task.h,
                    start as int,
                    end as int,
                    rounds,
                    out,
                ));
            }
            return out;
        }
        let ghost taken_side = popped(side);
        proof {
            assert(!search_stops(side, end as int));
            assert(taken_side.queue == state.queue@);
        }
        let first: usize = graph.offsets[u].0 as usize;
        let last: usize = graph.offsets[u + 1].0 as usize;
        let du: u32 = state.distances[u];
        let mut k: usize = first;
        proof {
            assert(graph.offsets@[u as int].0 <= graph.offsets@[u + 1].0);
            assert(graph.offsets@[u + 1].0 <= graph.offsets@[n].0);
        }
        while k < last
            invariant
                graph.wf(),
                n == graph.node_count(),
                task == task_of(graph, start, heuristic, prune),
                start < n,
                end < n,
                u < n,
                u != end,
                u == node.id,
                heuristic matches Some(table) ==> table@.len() == n,
                first == graph.offsets@[u as int].0,
                last == graph.offsets@[u + 1].0,
                last <= graph.edges@.len(),
                first <= k <= last,
                state.sized_for(n),
                state.queue.wf(),
                frontier_ok(
                    graph,
                    task,
                    state.distances@,
                    state.parent_nodes@,
                    state.queue@,
                    tr,
                    u as int,
                ),
                scanned(graph, task, state.distances@, u as int, k as int),
                state.distances@[u as int] == du,
                du < UNREACHED,
                !tr.closed.contains(end as int),
                graph.raster_columns_count > 0,
                state.distances@ == relax_upto(
                    graph,
                    task.open,
                    task.h,
                    no_other(n),
                    taken_side,
                    u as int,
                    k as int,
                ).dist,
                state.parent_nodes@ == relax_upto(
                    graph,
                    task.open,
                    task.h,
                    no_other(n),
                    taken_side,
                    u as int,
                    k as int,
                ).parent,
                state.queue@ == relax_upto(
                    graph,
                    task.open,
                    task.h,
                    no_other(n),
                    taken_side,
                    u as int,
                    k as int,
                ).queue,
                total(state.distances@) <= total0,
                total(state.distances@) == total0 ==> state.queue@.len() == q0.len() - 1,
            decreases last - k,
        {
            let edge = graph.edges[k];
            let dest: usize = edge.destination as usize;
            let reach: u64 = du as u64 + edge.distance as u64;
            if reach < state.distances[dest] as u64 && !is_shut(graph, prune, dest) {
                let key: u32 = queue_key(reach as u32, estimate_at(heuristic, dest, Ghost(n)));
                proof {
                    broadcast use vstd::multiset::group_multiset_axioms;

                    lemma_relaxed(
                        graph,
                        task,
                        state.distances@,
                        state.parent_nodes@,
                        state.queue@,
                        tr,
                        u as int,
                        k as int,
                        key,
                    );
                    lemma_total_update(state.distances@, dest as int, reach as u32);
                }
                state.parent_nodes[dest] = node.id;
                state.distances[dest] = reach as u32;
                state.queue.push(HeapNode { id: dest as u32, distance: key });
                proof {
                    tr = relaxed_trace(tr, u as int, k as int, dest as int, key);
                }
            } else {
                proof {
                    lemma_skipped(graph, task, state.distances@, u as int, k as int);
                }
            }
            k += 1;
        }
        proof {
            lemma_closed(
                graph,
                task,
                state.distances@,
                state.parent_nodes@,
                state.queue@,
                tr,
                u as int,
            );
            tr = closed_trace(tr, u as int);
            lemma_total_nonnegative(state.distances@);
            let next = search_after(graph, task.open, task.h, start as int, rounds + 1);
            assert(next == expand(
                graph,
                task.open,
                task.h,
                no_other(n),
                taken_side,
                u as int,
            ));
            assert forall|i: nat| i < rounds + 1 implies !search_stops(
                #[trigger] search_after(graph, task.open, task.h, start as int, i),
                end as int,
            ) by {
                if i == rounds {
                }
            }
            rounds = rounds + 1;
        }
    }
}

} // verus!
