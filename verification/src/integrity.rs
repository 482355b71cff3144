//! Checking a graph that came from outside before it is searched.

use crate::graph::Graph;
use crate::raster::{bottom_cell, left_cell, right_cell, top_cell, touches};
use vstd::prelude::*;

verus! {

/// Offsets that never decrease from one node to the next never decrease at
/// all.
proof fn lemma_steps_make_order(offsets: Seq<(u32, Option<usize>)>, i: int, j: int)
    requires
        forall|k: int| 0 <= k < offsets.len() - 1 ==> (#[trigger] offsets[k]).0 <= offsets[k + 1].0,
        0 <= i <= j < offsets.len(),
    ensures
        offsets[i].0 <= offsets[j].0,
    decreases j - i,
{
    if i < j {
        lemma_steps_make_order(offsets, i, j - 1);
        assert(offsets[j - 1].0 <= offsets[j].0);
    }
}

impl Graph {
    /// Whether the adjacency is intact, as `wf` says.
    pub fn is_well_formed(&self) -> (ok: bool)
        ensures
            ok == self.wf(),
    {
        if self.offsets.len() == 0 {
            return false;
        }
        let n: usize = self.offsets.len() - 1;
        if n >= u32::MAX as usize {
            return false;
        }
        match self.raster_rows_count.checked_mul(self.raster_columns_count) {
            Some(cells) => {
                if cells != n {
                    return false;
                }
            },
            None => {
                return false;
            },
        }
        let mut i: usize = 0;
        while i < n
            invariant
                n == self.node_count(),
                i <= n,
                forall|k: int|
                    0 <= k < i ==> (#[trigger] self.offsets@[k]).0 <= self.offsets@[k + 1].0,
            decreases n - i,
        {
            if self.offsets[i].0 > self.offsets[i + 1].0 {
                proof {
                    assert(!((#[trigger] self.offsets@[i as int]).0 <= (
                    #[trigger] self.offsets@[i + 1]).0));
                }
                return false;
            }
            i += 1;
        }
        proof {
            assert forall|a: int, b: int| 0 <= a <= b <= self.node_count() implies (
            #[trigger] self.offsets@[a]).0 <= (#[trigger] self.offsets@[b]).0 by {
                lemma_steps_make_order(self.offsets@, a, b);
            }
        }
        if self.offsets[n].0 as usize != self.edges.len() {
            return false;
        }
        let mut k: usize = 0;
        while k < self.edges.len()
            invariant
                n == self.node_count(),
                k <= self.edges@.len(),
                forall|m: int| 0 <= m < k ==> (#[trigger] self.edges@[m]).destination < n,
            decreases self.edges@.len() - k,
        {
            if self.edges[k].destination as usize >= n {
                return false;
            }
            k += 1;
        }
        true
    }

    /// Whether the raster is one that coordinates can be given for, as
    /// `has_raster` says.
    pub fn has_valid_raster(&self) -> (ok: bool)
        ensures
            ok == self.has_raster(),
    {
        0 < self.raster_columns_count && self.raster_columns_count as u64 <= 3_600_000_000 && 0
            < self.raster_rows_count && self.raster_rows_count as u64 <= 1_800_000_000
    }

    /// Whether `rect` lies in the raster, as `rect_fits` says.
    pub fn holds_rect(&self, rect: &(usize, usize, usize, usize)) -> (ok: bool)
        ensures
            ok == crate::overlay::rect_fits(
                *rect,
                self.raster_columns_count as int,
                self.raster_rows_count as int,
            ),
    {
        rect.0 <= rect.2 && rect.2 < self.raster_columns_count && rect.1 <= rect.3 && rect.3
            < self.raster_rows_count
    }

    /// Whether the estimate `heuristic` of the distance to `end` is
    /// consistent, as `consistent` says: with such an estimate A* returns a
    /// shortest route.
    pub fn is_consistent(&self, heuristic: &Vec<u32>, end: usize) -> (ok: bool)
        requires
            self.wf(),
            end < self.node_count(),
        ensures
            ok == self.consistent(self.all_open(), heuristic@, end as int),
    {
        let n: usize = self.offsets.len() - 1;
        if heuristic.len() != n {
            return false;
        }
        if heuristic[end] != 0 {
            return false;
        }
        let mut u: usize = 0;
        while u < n
            invariant
                self.wf(),
                n == self.node_count(),
                heuristic@.len() == n,
                u <= n,
                forall|v: int, k: int|
                    0 <= v < u && #[trigger] self.leaves(k, v) ==> heuristic@[v] <= self.weight(k)
                        + heuristic@[self.target(k)],
            decreases n - u,
        {
            let first: usize = self.offsets[u].0 as usize;
            let last: usize = self.offsets[u + 1].0 as usize;
            proof {
                assert(self.offsets@[u as int].0 <= self.offsets@[u + 1].0);
                assert(self.offsets@[u + 1].0 <= self.offsets@[n as int].0);
            }
            let mut k: usize = first;
            while k < last
                invariant
                    self.wf(),
                    n == self.node_count(),
                    heuristic@.len() == n,
                    u < n,
                    first == self.offsets@[u as int].0,
                    last == self.offsets@[u + 1].0,
                    last <= self.edges@.len(),
                    first <= k <= last,
                    forall|m: int|
                        first <= m < k ==> heuristic@[u as int] <= self.weight(m)
                            + heuristic@[#[trigger] self.target(m)],
                decreases last - k,
            {
                let edge = self.edges[k];
                let t: usize = edge.destination as usize;
                if heuristic[u] as u64 > edge.distance as u64 + heuristic[t] as u64 {
                    proof {
                        assert(self.leaves(k as int, u as int));
                        assert(self.all_open()[self.target(k as int)]);
                    }
                    return false;
                }
                k += 1;
            }
            proof {
                assert forall|v: int, m: int|
                    0 <= v < u + 1 && #[trigger] self.leaves(m, v) implies heuristic@[v]
                    <= self.weight(m) + heuristic@[self.target(m)] by {
                    if v == u {
                        assert(heuristic@[u as int] <= self.weight(m) + heuristic@[self.target(m)]);
                    }
                }
            }
            u += 1;
        }
        true
    }

    /// Whether edge `back` leads from the target of edge `k` to `u` and is
    /// as long as `k`.
    fn leads_back(&self, back: usize, k: usize, u: usize) -> (r: bool)
        requires
            self.wf(),
            k < self.edges@.len(),
            back < self.edges@.len(),
        ensures
            r == (self.target(back as int) == u && self.weight(back as int) == self.weight(
                k as int,
            )),
    {
        self.edges[back].destination as usize == u && self.edges[back].distance
            == self.edges[k].distance
    }

    /// Whether one step up, down, east or west leads from `u` to `t`.
    fn is_one_step(&self, u: usize, t: usize) -> (b: bool)
        requires
            self.wf(),
            u < self.node_count(),
        ensures
            b == touches(
                self.raster_rows_count as int,
                self.raster_columns_count as int,
                u as int,
                t as int,
            ),
    {
        let rows: usize = self.raster_rows_count;
        let cols: usize = self.raster_columns_count;
        let up: bool = match top_cell(rows, cols, u) {
            Some(v) => v == t,
            None => false,
        };
        let down: bool = match bottom_cell(rows, cols, u) {
            Some(v) => v == t,
            None => false,
        };
        up || down || right_cell(rows, cols, u) == t || left_cell(rows, cols, u) == t
    }

    /// Whether every edge leads one step up, down, east or west, as
    /// `steps_only` says.
    pub fn has_steps_only(&self) -> (ok: bool)
        requires
            self.wf(),
        ensures
            ok == self.steps_only(),
    {
        let n: usize = self.offsets.len() - 1;
        let ghost rows = self.raster_rows_count as int;
        let ghost cols = self.raster_columns_count as int;
        let mut u: usize = 0;
        while u < n
            invariant
                self.wf(),
                n == self.node_count(),
                rows == self.raster_rows_count,
                cols == self.raster_columns_count,
                u <= n,
                forall|k: int, v: int|
                    0 <= v < u && #[trigger] self.leaves(k, v) ==> touches(
                        rows,
                        cols,
                        v,
                        self.target(k),
                    ),
            decreases n - u,
        {
            let first: usize = self.offsets[u].0 as usize;
            let last: usize = self.offsets[u + 1].0 as usize;
            proof {
                assert(self.offsets@[u as int].0 <= self.offsets@[u + 1].0);
                assert(self.offsets@[u + 1].0 <= self.offsets@[n as int].0);
            }
            let mut k: usize = first;
            while k < last
                invariant
                    self.wf(),
                    n == self.node_count(),
                    rows == self.raster_rows_count,
                    cols == self.raster_columns_count,
                    u < n,
                    first == self.offsets@[u as int].0,
                    last == self.offsets@[u + 1].0,
                    last <= self.edges@.len(),
                    first <= k <= last,
                    forall|m: int|
                        first <= m < k ==> touches(rows, cols, u as int, #[trigger] self.target(m)),
                decreases last - k,
            {
                let t: usize = self.edges[k].destination as usize;
                if !self.is_one_step(u, t) {
                    proof {
                        assert(self.leaves(k as int, u as int));
                    }
                    return false;
                }
                k += 1;
            }
            u += 1;
        }
        true
    }

    /// Whether every edge is stored at both of its endpoints with the same
    /// length, as `is_undirected` says.
    pub fn is_symmetric(&self) -> (ok: bool)
        requires
            self.wf(),
        ensures
            ok == self.is_undirected(),
    {
        let n: usize = self.offsets.len() - 1;
        let mut u: usize = 0;
        while u < n
            invariant
                self.wf(),
                n == self.node_count(),
                u <= n,
                forall|v: int, k: int| 0 <= v < u ==> #[trigger] self.has_way_back(k, v),
            decreases n - u,
        {
            let first: usize = self.offsets[u].0 as usize;
            let last: usize = self.offsets[u + 1].0 as usize;
            proof {
                assert(self.offsets@[u as int].0 <= self.offsets@[u + 1].0);
                assert(self.offsets@[u + 1].0 <= self.offsets@[n as int].0);
            }
            let mut k: usize = first;
            while k < last
                invariant
                    self.wf(),
                    n == self.node_count(),
                    u < n,
                    first == self.offsets@[u as int].0,
                    last == self.offsets@[u + 1].0,
                    last <= self.edges@.len(),
                    first <= k <= last,
                    forall|m: int| first <= m < k ==> #[trigger] self.has_way_back(m, u as int),
                decreases last - k,
            {
                let t: usize = self.edges[k].destination as usize;
                let from: usize = self.offsets[t].0 as usize;
                let to: usize = self.offsets[t + 1].0 as usize;
                proof {
                    assert(self.offsets@[t as int].0 <= self.offsets@[t + 1].0);
                    assert(self.offsets@[t + 1].0 <= self.offsets@[n as int].0);
                }
                let mut found: bool = false;
                let mut back: usize = from;
                while back < to
                    invariant_except_break
                        !found,
                        forall|b: int|
                            from <= b < back ==> !#[trigger] self.is_back_edge(
                                b,
                                k as int,
                                u as int,
                            ),
                    invariant
                        self.wf(),
                        k < self.edges@.len(),
                        t == self.target(k as int),
                        t < self.node_count(),
                        from == self.offsets@[t as int].0,
                        to == self.offsets@[t + 1].0,
                        to <= self.edges@.len(),
                        from <= back <= to,
                    ensures
                        found ==> self.has_way_back(k as int, u as int),
                        !found ==> forall|b: int|
                            from <= b < to ==> !#[trigger] self.is_back_edge(b, k as int, u as int),
                    decreases to - back,
                {
                    if self.leads_back(back, k, u) {
                        found = true;
                        proof {
                            assert(self.is_back_edge(back as int, k as int, u as int));
                        }
                        break ;
                    }
                    back += 1;
                }
                if !found {
                    proof {
                        assert(self.leaves(k as int, u as int));
                        assert(!self.has_way_back(k as int, u as int)) by {
                            assert forall|b: int| !#[trigger] self.is_back_edge(
                                b,
                                k as int,
                                u as int,
                            ) by {
                                if from <= b < to {
                                }
                            }
                        }
                    }
                    return false;
                }
                k += 1;
            }
            proof {
                assert forall|m: int| #[trigger] self.has_way_back(m, u as int) by {
                    if first <= m < last {
                    }
                }
            }
            u += 1;
        }
        proof {
            assert forall|v: int, k: int| #[trigger] self.has_way_back(k, v) by {
                if 0 <= v < n {
                }
            }
        }
        true
    }
}

} // verus!
