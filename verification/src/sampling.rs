//! Drawing random pairs of water nodes, as benchmarks want them.

use crate::graph::Graph;
use crate::raster::lemma_cell;
use rand::Rng;
use vstd::prelude::*;

verus! {

/// `rand::Rng::gen_range` on `rand::thread_rng()`, for the range from zero
/// up to and without `bound`: some number of that range. Which one is left
/// open; an empty range is kept out because the call panics on it.
#[verifier::external_body]
fn random_below(bound: usize) -> (r: usize)
    requires
        bound > 0,
    ensures
        r < bound,
{
    rand::thread_rng().gen_range(0..bound)
}

impl Graph {
    /// Node `i` is water and lies between 83 degrees south and 85.01
    /// degrees north.
    pub open spec fn is_sample_node(&self, i: int) -> bool {
        self.is_water_node(i) && -830_000_000 <= self.lat_of(i) <= 850_100_000
    }

    /// The water nodes between 83 degrees south and 85.01 degrees north, in
    /// ascending order.
    pub fn sample_nodes(&self) -> (nodes: Vec<usize>)
        requires
            self.wf(),
            self.has_raster(),
        ensures
            forall|k: int| 0 <= k < nodes@.len() ==> self.is_sample_node(#[trigger] nodes@[k] as int),
            forall|i: int|
                self.is_sample_node(i) ==> exists|k: int|
                    0 <= k < nodes@.len() && #[trigger] nodes@[k] == i,
            forall|k: int, m: int| 0 <= k < m < nodes@.len() ==> nodes@[k] < nodes@[m],
    {
        let n: usize = self.offsets.len() - 1;
        let mut nodes: Vec<usize> = Vec::new();
        let mut i: usize = 0;
        while i < n
            invariant
                self.wf(),
                self.has_raster(),
                n == self.node_count(),
                i <= n,
                forall|k: int|
                    0 <= k < nodes@.len() ==> self.is_sample_node(#[trigger] nodes@[k] as int)
                        && nodes@[k] < i,
                forall|v: int|
                    0 <= v < i && self.is_sample_node(v) ==> exists|k: int|
                        0 <= k < nodes@.len() && #[trigger] nodes@[k] == v,
                forall|k: int, m: int| 0 <= k < m < nodes@.len() ==> nodes@[k] < nodes@[m],
            decreases n - i,
        {
            proof {
                lemma_cell(
                    self.raster_rows_count as int,
                    self.raster_columns_count as int,
                    i as int,
                );
            }
            let lat: i32 = self.get_lat(i);
            if lat >= -830_000_000 && lat <= 850_100_000 && self.is_water(i) {
                let ghost before = nodes@;
                nodes.push(i);
                proof {
                    assert forall|v: int| 0 <= v < i + 1 && self.is_sample_node(v) implies exists|
                        k: int,
                    |
                        0 <= k < nodes@.len() && #[trigger] nodes@[k] == v by {
                        if v < i {
                            let k = choose|k: int| 0 <= k < before.len() && #[trigger] before[k] == v;
                            assert(nodes@[k] == v);
                        } else {
                            assert(nodes@[before.len() as int] == v);
                        }
                    }
                }
            }
            i += 1;
        }
        nodes
    }

    /// `amount` pairs of nodes drawn at random from the water nodes between
    /// 83 degrees south and 85.01 degrees north; no pair where there is no
    /// such node.
    pub fn generate_random_water_nodes(&self, amount: usize) -> (pairs: Vec<(usize, usize)>)
        requires
            self.wf(),
            self.has_raster(),
        ensures
            forall|k: int|
                0 <= k < pairs@.len() ==> self.is_sample_node((#[trigger] pairs@[k]).0 as int)
                    && self.is_sample_node(pairs@[k].1 as int),
            (exists|i: int| self.is_sample_node(i)) ==> pairs@.len() == amount,
            !(exists|i: int| self.is_sample_node(i)) ==> pairs@.len() == 0,
    {
        let water_nodes = self.sample_nodes();
        let mut chosen_nodes: Vec<(usize, usize)> = Vec::new();
        if water_nodes.len() == 0 {
            return chosen_nodes;
        }
        proof {
            assert(self.is_sample_node(water_nodes@[0] as int));
        }
        let mut k: usize = 0;
        while k < amount
            invariant
                k <= amount,
                water_nodes@.len() > 0,
                chosen_nodes@.len() == k,
                forall|m: int|
                    0 <= m < water_nodes@.len() ==> self.is_sample_node(
                        #[trigger] water_nodes@[m] as int,
                    ),
                forall|m: int|
                    0 <= m < chosen_nodes@.len() ==> self.is_sample_node(
                        (#[trigger] chosen_nodes@[m]).0 as int,
                    ) && self.is_sample_node(chosen_nodes@[m].1 as int),
            decreases amount - k,
        {
            let first: usize = water_nodes[random_below(water_nodes.len())];
            let second: usize = water_nodes[random_below(water_nodes.len())];
            chosen_nodes.push((first, second));
            k += 1;
        }
        chosen_nodes
    }
}

} // verus!
