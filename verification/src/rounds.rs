//! The searches round by round: what a side of a search holds after each
//! round, when the search stops, and what it then returns. A search has one
//! course only, so this fixes its whole result: the route, the distance and
//! the number of pops.

use crate::graph::{capped_sum, Graph};
use crate::heap_node::HeapNode;
use crate::search::PathResult;
use crate::state::UNREACHED;
use vstd::multiset::Multiset;
use vstd::prelude::*;

verus! {

/// What one side of a search holds: distances, parent pointers, the
/// frontier, and the best meeting with the other side so far.
pub struct Side {
    pub dist: Seq<u32>,
    pub parent: Seq<u32>,
    pub queue: Multiset<HeapNode>,
    pub best: u32,
    pub middle: usize,
}

/// Entry `e` is in the queue and no entry of the queue precedes it.
pub open spec fn leaves_first(q: Multiset<HeapNode>, e: HeapNode) -> bool {
    q.count(e) > 0 && forall|x: HeapNode| q.count(x) > 0 ==> !x.precedes(e)
}

/// The entry that `pop` hands out next.
pub open spec fn first_entry(q: Multiset<HeapNode>) -> HeapNode {
    choose|e: HeapNode| leaves_first(q, e)
}

/// A queue has one first entry only.
pub proof fn lemma_first_entry(q: Multiset<HeapNode>, e: HeapNode)
    requires
        leaves_first(q, e),
    ensures
        first_entry(q) == e,
{
    let f = first_entry(q);
    assert(leaves_first(q, f));
    assert(!e.precedes(f) && !f.precedes(e));
}

/// The queue that holds `e` alone hands out `e` and is empty after that.
pub proof fn lemma_single_entry(e: HeapNode)
    ensures
        first_entry(Multiset::empty().insert(e)) == e,
        Multiset::<HeapNode>::empty().insert(e).len() == 1,
        Multiset::<HeapNode>::empty().insert(e).remove(e).len() == 0,
{
    broadcast use vstd::multiset::group_multiset_axioms;

    let q = Multiset::<HeapNode>::empty().insert(e);
    assert forall|x: HeapNode| q.count(x) > 0 implies !x.precedes(e) by {
        assert(x == e);
    }
    assert(leaves_first(q, e));
    lemma_first_entry(q, e);
}

/// A count of pops, held at the greatest `usize` where it would pass it.
pub open spec fn capped_count(n: int) -> int {
    if n > usize::MAX {
        usize::MAX as int
    } else {
        n
    }
}

/// An estimate of nothing reached on the other side.
pub open spec fn no_other(n: int) -> Seq<u32> {
    Seq::new(n as nat, |v: int| UNREACHED)
}

/// The side after edge `k` out of `u` is relaxed: where the edge gives its
/// target a smaller distance and the target is open, the target gets that
/// distance, `u` as its parent and an entry in the queue under the distance
/// plus the estimate `h`; where the other side has reached the target too
/// and the way through it is shorter than the best meeting, it is the best
/// meeting from now on.
pub open spec fn relax_edge(
    g: &Graph,
    open: Seq<bool>,
    h: Seq<u32>,
    other: Seq<u32>,
    side: Side,
    u: int,
    k: int,
) -> Side {
    let dest = g.target(k);
    let reach = side.dist[u] + g.weight(k);
    if reach < side.dist[dest] && open[dest] {
        let met = other[dest] != UNREACHED && reach + other[dest] < side.best;
        Side {
            dist: side.dist.update(dest, reach as u32),
            parent: side.parent.update(dest, u as u32),
            queue: side.queue.insert(
                HeapNode { id: dest as u32, distance: capped_sum(reach, h[dest] as int) as u32 },
            ),
            best: if met {
                (reach + other[dest]) as u32
            } else {
                side.best
            },
            middle: if met {
                dest as usize
            } else {
                side.middle
            },
        }
    } else {
        side
    }
}

/// The side after the edges of `u` before edge `k` are relaxed, one after
/// the other.
pub open spec fn relax_upto(
    g: &Graph,
    open: Seq<bool>,
    h: Seq<u32>,
    other: Seq<u32>,
    side: Side,
    u: int,
    k: int,
) -> Side
    decreases k - g.offsets@[u].0,
{
    if k <= g.offsets@[u].0 {
        side
    } else {
        relax_edge(g, open, h, other, relax_upto(g, open, h, other, side, u, k - 1), u, k - 1)
    }
}

/// The side after all edges of `u` are relaxed.
pub open spec fn expand(
    g: &Graph,
    open: Seq<bool>,
    h: Seq<u32>,
    other: Seq<u32>,
    side: Side,
    u: int,
) -> Side {
    relax_upto(g, open, h, other, side, u, g.offsets@[u + 1].0 as int)
}

/// The side without its first entry.
pub open spec fn popped(side: Side) -> Side {
    Side { queue: side.queue.remove(first_entry(side.queue)), ..side }
}

/// A side that has reached nothing but `start`.
pub open spec fn start_side(n: int, start: int) -> Side {
    Side {
        dist: Seq::new(n as nat, |v: int| if v == start { 0u32 } else { UNREACHED }),
        parent: Seq::new(n as nat, |v: int| UNREACHED),
        queue: Multiset::empty().insert(HeapNode { id: start as u32, distance: 0 }),
        best: UNREACHED,
        middle: 0,
    }
}

/// A forward search after `rounds` rounds: each round pops the first entry
/// and relaxes the edges of its node.
pub open spec fn search_after(
    g: &Graph,
    open: Seq<bool>,
    h: Seq<u32>,
    start: int,
    rounds: nat,
) -> Side
    decreases rounds,
{
    if rounds == 0 {
        start_side(g.node_count(), start)
    } else {
        let side = search_after(g, open, h, start, (rounds - 1) as nat);
        expand(
            g,
            open,
            h,
            no_other(g.node_count()),
            popped(side),
            first_entry(side.queue).id as int,
        )
    }
}

/// A forward search stops where its queue is empty or its first entry is
/// that of `end`.
pub open spec fn search_stops(side: Side, end: int) -> bool {
    side.queue.len() == 0 || first_entry(side.queue).id == end
}

/// `path` follows the parent pointers from `from` to `root` and ends where
/// it first comes to `root`.
pub open spec fn is_parent_chain(parent: Seq<u32>, path: Seq<usize>, from: int, root: int) -> bool {
    &&& path.len() >= 1
    &&& path[0] == from
    &&& path.last() == root
    &&& forall|i: int|
        0 <= i < path.len() - 1 ==> (#[trigger] path[i]) != root && path[i + 1] == parent[path[i] as int]
}

/// Only one path follows the parent pointers from `from` to `root`.
pub proof fn lemma_parent_chain_unique(
    parent: Seq<u32>,
    a: Seq<usize>,
    b: Seq<usize>,
    from: int,
    root: int,
)
    requires
        is_parent_chain(parent, a, from, root),
        is_parent_chain(parent, b, from, root),
    ensures
        a == b,
{
    assert forall|i: int| 0 <= i < a.len() && i < b.len() implies a[i] == b[i] by {
        lemma_chain_agrees(parent, a, b, from, root, i);
    }
    if a.len() < b.len() {
        lemma_chain_agrees(parent, a, b, from, root, a.len() - 1);
        assert(b[a.len() - 1] != root);
    }
    if b.len() < a.len() {
        lemma_chain_agrees(parent, a, b, from, root, b.len() - 1);
        assert(a[b.len() - 1] != root);
    }
    assert(a =~= b);
}

proof fn lemma_chain_agrees(
    parent: Seq<u32>,
    a: Seq<usize>,
    b: Seq<usize>,
    from: int,
    root: int,
    i: int,
)
    requires
        is_parent_chain(parent, a, from, root),
        is_parent_chain(parent, b, from, root),
        0 <= i < a.len(),
        i < b.len(),
    ensures
        a[i] == b[i],
    decreases i,
{
    if i > 0 {
        lemma_chain_agrees(parent, a, b, from, root, i - 1);
        assert(a[i - 1] != root || i - 1 >= a.len() - 1);
        assert(a[i] == parent[a[i - 1] as int]);
        assert(b[i] == parent[b[i - 1] as int]);
    }
}

/// `result` is what the forward search from `start` to `end` returns that
/// stops after `rounds` rounds and not before: nothing where the queue is
/// then empty, else the distance of `end`, the path along the parent
/// pointers from `end` back to `start`, and one pop more than rounds.
pub open spec fn is_search_result(
    g: &Graph,
    open: Seq<bool>,
    h: Seq<u32>,
    start: int,
    end: int,
    rounds: nat,
    result: PathResult,
) -> bool {
    let side = search_after(g, open, h, start, rounds);
    &&& forall|i: nat| i < rounds ==> !search_stops(#[trigger] search_after(g, open, h, start, i), end)
    &&& search_stops(side, end)
    &&& if side.queue.len() == 0 {
        &&& result.path is None
        &&& result.distance is None
        &&& result.heap_pops == capped_count(rounds as int)
    } else {
        &&& result.distance == Some(side.dist[end])
        &&& result.heap_pops == capped_count(rounds as int + 1)
        &&& result.path matches Some(p) && is_parent_chain(side.parent, p@, end, start)
    }
}

/// Both sides of the search from both ends. The best meeting so far is kept
/// with the far side.
pub struct Both {
    pub near: Side,
    pub far: Side,
}

/// The two sides before the first round. A search from a node to itself
/// has met at that node.
pub open spec fn start_both(n: int, start: int, end: int) -> Both {
    Both {
        near: start_side(n, start),
        far: Side {
            best: if start == end {
                0u32
            } else {
                UNREACHED
            },
            middle: if start == end {
                start as usize
            } else {
                0usize
            },
            ..start_side(n, end)
        },
    }
}

/// One round of the search from both ends: each side pops its first entry;
/// the near side relaxes the edges of its node, then the far side those of
/// its own. Every node may be entered and no estimate is added.
pub open spec fn both_round(g: &Graph, b: Both) -> Both {
    let n = g.node_count();
    let near = expand(
        g,
        g.all_open(),
        crate::rounds::no_estimates(n),
        b.far.dist,
        Side { best: b.far.best, middle: b.far.middle, ..popped(b.near) },
        first_entry(b.near.queue).id as int,
    );
    let far = expand(
        g,
        g.all_open(),
        crate::rounds::no_estimates(n),
        near.dist,
        Side { best: near.best, middle: near.middle, ..popped(b.far) },
        first_entry(b.far.queue).id as int,
    );
    Both { near, far }
}

/// An estimate of zero everywhere.
pub open spec fn no_estimates(n: int) -> Seq<u32> {
    Seq::new(n as nat, |v: int| 0u32)
}

/// The search from both ends after `rounds` rounds.
pub open spec fn both_after(g: &Graph, start: int, end: int, rounds: nat) -> Both
    decreases rounds,
{
    if rounds == 0 {
        start_both(g.node_count(), start, end)
    } else {
        both_round(g, both_after(g, start, end, (rounds - 1) as nat))
    }
}

/// Both sides have an entry to pop, and the distances of the two nodes
/// popped add up to the best meeting or more.
pub open spec fn both_meet(b: Both) -> bool {
    &&& b.near.queue.len() > 0
    &&& b.far.queue.len() > 0
    &&& b.near.dist[first_entry(b.near.queue).id as int] + b.far.dist[first_entry(
        b.far.queue,
    ).id as int] >= b.far.best
}

/// The search from both ends stops where a queue is empty or the two sides
/// cannot meet any closer.
pub open spec fn both_stop(b: Both) -> bool {
    b.near.queue.len() == 0 || b.far.queue.len() == 0 || both_meet(b)
}

/// `path` leads from `end` along the parent pointers of the far side back
/// to the meeting node, and on along those of the near side to `start`.
pub open spec fn is_meeting_path(b: Both, path: Seq<usize>, start: int, end: int) -> bool {
    exists|back: Seq<usize>, on: Seq<usize>|
        {
            &&& #[trigger] is_parent_chain(b.far.parent, back, b.far.middle as int, end)
            &&& #[trigger] is_parent_chain(b.near.parent, on, b.far.middle as int, start)
            &&& path == back.reverse() + on.skip(1)
        }
}

/// `result` is what the search from both ends returns that stops after
/// `rounds` rounds and not before: nothing where a queue is then empty or
/// no meeting is known, else the best meeting and the path through it. Two
/// pops are counted for every round and for the stop at a meeting.
pub open spec fn is_both_result(
    g: &Graph,
    start: int,
    end: int,
    rounds: nat,
    result: PathResult,
) -> bool {
    let b = both_after(g, start, end, rounds);
    &&& forall|i: nat| i < rounds ==> !both_stop(#[trigger] both_after(g, start, end, i))
    &&& both_stop(b)
    &&& if !both_meet(b) {
        &&& result.path is None
        &&& result.distance is None
        &&& result.heap_pops == capped_count(2 * (rounds as int))
    } else if b.far.best == UNREACHED {
        &&& result.path is None
        &&& result.distance is None
        &&& result.heap_pops == capped_count(2 * (rounds as int) + 2)
    } else {
        &&& result.distance == Some(b.far.best)
        &&& result.heap_pops == capped_count(2 * (rounds as int) + 2)
        &&& result.path matches Some(p) && is_meeting_path(b, p@, start, end)
    }
}

} // verus!
