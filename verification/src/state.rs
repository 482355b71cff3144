//! The working set that every search reuses.

use crate::heap_node::HeapNode;
use crate::queue::NodeQueue;
use vstd::multiset::Multiset;
use vstd::prelude::*;

verus! {

/// The value that marks a node as not reached and a parent as not set.
pub const UNREACHED: u32 = 0xffff_ffff;

/// Distances, parent pointers and frontier of a search, and a second set of
/// them for the search that runs from the target.
pub struct AlgorithmState {
    pub distances: Vec<u32>,
    pub parent_nodes: Vec<u32>,
    pub queue: NodeQueue,
    pub distances2: Vec<u32>,
    pub parent_nodes2: Vec<u32>,
    pub queue2: NodeQueue,
}

/// Every cell holds the "unreached" value.
pub open spec fn all_unreached(cells: Seq<u32>) -> bool {
    forall|i: int| 0 <= i < cells.len() ==> #[trigger] cells[i] == UNREACHED
}

impl AlgorithmState {
    /// The four buffers hold one cell per node of a graph with `n` nodes.
    pub open spec fn sized_for(&self, n: int) -> bool {
        &&& self.distances@.len() == n
        &&& self.parent_nodes@.len() == n
        &&& self.distances2@.len() == n
        &&& self.parent_nodes2@.len() == n
    }

    /// Nothing is reached and both frontiers are empty.
    pub open spec fn is_fresh(&self) -> bool {
        &&& all_unreached(self.distances@)
        &&& all_unreached(self.parent_nodes@)
        &&& all_unreached(self.distances2@)
        &&& all_unreached(self.parent_nodes2@)
        &&& self.queue.wf()
        &&& self.queue2.wf()
        &&& self.queue@ == Multiset::<HeapNode>::empty()
        &&& self.queue2@ == Multiset::<HeapNode>::empty()
    }

    /// A working set for graphs of `node_count` nodes.
    pub fn new(node_count: usize) -> (state: AlgorithmState)
        ensures
            state.sized_for(node_count as int),
            state.is_fresh(),
    {
        AlgorithmState {
            distances: filled(node_count),
            parent_nodes: filled(node_count),
            queue: NodeQueue::with_capacity(node_count),
            distances2: filled(node_count),
            parent_nodes2: filled(node_count),
            queue2: NodeQueue::with_capacity(node_count),
        }
    }

    /// Whether the four buffers hold one cell per node of a graph with
    /// `node_count` nodes.
    pub fn fits(&self, node_count: usize) -> (ok: bool)
        ensures
            ok == self.sized_for(node_count as int),
    {
        self.distances.len() == node_count && self.parent_nodes.len() == node_count
            && self.distances2.len() == node_count && self.parent_nodes2.len() == node_count
    }

    /// Marks every node as unreached and empties both frontiers. The buffers
    /// keep their size.
    pub fn reset(&mut self)
        requires
            old(self).sized_for(old(self).distances@.len() as int),
        ensures
            final(self).sized_for(old(self).distances@.len() as int),
            final(self).is_fresh(),
    {
        let n: usize = self.distances.len();
        let mut i: usize = 0;
        while i < n
            invariant
                i <= n,
                self.sized_for(n as int),
                forall|j: int| 0 <= j < i ==> #[trigger] self.distances@[j] == UNREACHED,
                forall|j: int| 0 <= j < i ==> #[trigger] self.parent_nodes@[j] == UNREACHED,
                forall|j: int| 0 <= j < i ==> #[trigger] self.distances2@[j] == UNREACHED,
                forall|j: int| 0 <= j < i ==> #[trigger] self.parent_nodes2@[j] == UNREACHED,
            decreases n - i,
        {
            self.distances[i] = UNREACHED;
            self.parent_nodes[i] = UNREACHED;
            self.distances2[i] = UNREACHED;
            self.parent_nodes2[i] = UNREACHED;
            i += 1;
        }
        self.queue.clear();
        self.queue2.clear();
    }
}

/// A buffer of `n` cells that all hold the "unreached" value.
fn filled(n: usize) -> (cells: Vec<u32>)
    ensures
        cells@.len() == n,
        all_unreached(cells@),
{
    let mut cells: Vec<u32> = Vec::with_capacity(n);
    let mut i: usize = 0;
    while i < n
        invariant
            i <= n,
            cells@.len() == i,
            all_unreached(cells@),
        decreases n - i,
    {
        cells.push(UNREACHED);
        i += 1;
    }
    cells
}

} // verus!
