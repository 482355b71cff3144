//! A binary min-heap of frontier entries.

use crate::heap_node::HeapNode;
use crate::sequences::lemma_swap_keeps_multiset;
use vstd::multiset::Multiset;
use vstd::prelude::*;

verus! {

/// Parent comes no later than each of its children.
pub open spec fn is_heap(s: Seq<HeapNode>) -> bool {
    forall|i: int| 1 <= i < s.len() ==> !(#[trigger] s[i]).precedes(s[(i - 1) / 2])
}

/// Heap order holds except possibly between `pos` and its parent; the children
/// of `pos` already respect the parent of `pos`.
spec fn heap_but_up(s: Seq<HeapNode>, pos: int) -> bool {
    &&& forall|i: int| 1 <= i < s.len() && i != pos ==> !(#[trigger] s[i]).precedes(s[(i - 1) / 2])
    &&& forall|i: int|
        1 <= i < s.len() && pos >= 1 && (i - 1) / 2 == pos ==> !(#[trigger] s[i]).precedes(
            s[(pos - 1) / 2],
        )
}

/// Heap order holds except possibly between `pos` and its children; the
/// children of `pos` already respect the parent of `pos`.
spec fn heap_but_down(s: Seq<HeapNode>, pos: int) -> bool {
    &&& forall|i: int|
        1 <= i < s.len() && (i - 1) / 2 != pos ==> !(#[trigger] s[i]).precedes(s[(i - 1) / 2])
    &&& forall|i: int|
        1 <= i < s.len() && pos >= 1 && (i - 1) / 2 == pos ==> !(#[trigger] s[i]).precedes(
            s[(pos - 1) / 2],
        )
}

/// In a heap no entry precedes the root.
proof fn lemma_root_first(s: Seq<HeapNode>, i: int)
    requires
        is_heap(s),
        0 <= i < s.len(),
    ensures
        !s[i].precedes(s[0]),
    decreases i,
{
    if i > 0 {
        lemma_root_first(s, (i - 1) / 2);
        assert(!s[i].precedes(s[(i - 1) / 2]));
    }
}

fn sift_up(v: &mut Vec<HeapNode>, pos: usize)
    requires
        pos < old(v).len(),
        heap_but_up(old(v)@, pos as int),
    ensures
        is_heap(final(v)@),
        final(v)@.to_multiset() == old(v)@.to_multiset(),
        final(v).len() == old(v).len(),
{
    let mut i: usize = pos;
    while i > 0
        invariant
            i < v.len(),
            v.len() == old(v).len(),
            heap_but_up(v@, i as int),
            v@.to_multiset() == old(v)@.to_multiset(),
        decreases i,
    {
        let p: usize = (i - 1) / 2;
        let child = v[i];
        let parent = v[p];
        if !child.is_before(&parent) {
            assert(is_heap(v@));
            return ;
        }
        proof {
            lemma_swap_keeps_multiset(v@, i as int, p as int);
        }
        let ghost before = v@;
        v[i] = parent;
        v[p] = child;
        assert(v@ == before.update(i as int, before[p as int]).update(p as int, before[i as int]));
        assert(heap_but_up(v@, p as int)) by {
            assert forall|k: int| 1 <= k < v@.len() && k != p implies !(#[trigger] v@[k]).precedes(
                v@[(k - 1) / 2],
            ) by {
                if k == i {
                } else if (k - 1) / 2 == i {
                    assert(!before[k].precedes(before[(i - 1) / 2]));
                } else if (k - 1) / 2 == p {
                    assert(!before[k].precedes(before[p as int]));
                } else {
                    assert(!before[k].precedes(before[(k - 1) / 2]));
                }
            }
            assert forall|k: int|
                1 <= k < v@.len() && p >= 1 && (k - 1) / 2 == p implies !(#[trigger] v@[k]).precedes(
                v@[(p - 1) / 2],
            ) by {
                assert(!before[p as int].precedes(before[(p - 1) / 2]));
                if k == i {
                } else {
                    assert(!before[k].precedes(before[p as int]));
                }
            }
        }
        i = p;
    }
    assert(is_heap(v@));
}

fn sift_down(v: &mut Vec<HeapNode>, pos: usize)
    requires
        pos < old(v).len(),
        heap_but_down(old(v)@, pos as int),
    ensures
        is_heap(final(v)@),
        final(v)@.to_multiset() == old(v)@.to_multiset(),
        final(v).len() == old(v).len(),
{
    let n: usize = v.len();
    let mut i: usize = pos;
    loop
        invariant
            i < n,
            n == v.len(),
            v.len() == old(v).len(),
            heap_but_down(v@, i as int),
            v@.to_multiset() == old(v)@.to_multiset(),
        ensures
            is_heap(v@),
            v.len() == old(v).len(),
            v@.to_multiset() == old(v)@.to_multiset(),
        decreases n - i,
    {
        if i >= (n - 1) / 2 + 1 || 2 * i + 1 >= n {
            assert(is_heap(v@)) by {
                assert forall|k: int| 1 <= k < v@.len() implies !(#[trigger] v@[k]).precedes(
                    v@[(k - 1) / 2],
                ) by {
                    if (k - 1) / 2 == i {
                        assert(k >= 2 * i + 1);
                    }
                }
            }
            break ;
        }
        let left: usize = 2 * i + 1;
        let right: usize = left + 1;
        let mut least: usize = left;
        if right < n {
            let r = v[right];
            let l = v[left];
            if r.is_before(&l) {
                least = right;
            }
        }
        let here = v[i];
        let below = v[least];
        if !below.is_before(&here) {
            assert(is_heap(v@)) by {
                assert forall|k: int| 1 <= k < v@.len() implies !(#[trigger] v@[k]).precedes(
                    v@[(k - 1) / 2],
                ) by {
                    if (k - 1) / 2 == i {
                        assert(k == left || k == right);
                    }
                }
            }
            break ;
        }
        proof {
            lemma_swap_keeps_multiset(v@, i as int, least as int);
        }
        let ghost before = v@;
        v[i] = below;
        v[least] = here;
        assert(v@ == before.update(i as int, before[least as int]).update(
            least as int,
            before[i as int],
        ));
        assert(heap_but_down(v@, least as int)) by {
            assert forall|k: int|
                1 <= k < v@.len() && (k - 1) / 2 != least implies !(#[trigger] v@[k]).precedes(
                v@[(k - 1) / 2],
            ) by {
                if k == i {
                    assert(!before[least as int].precedes(before[(i - 1) / 2]));
                } else if (k - 1) / 2 == i {
                    assert(k == left || k == right);
                    if k != least {
                        assert(!before[k].precedes(before[least as int]) || before[k].precedes(
                            before[least as int],
                        ));
                    }
                } else {
                    assert(!before[k].precedes(before[(k - 1) / 2]));
                }
            }
            assert forall|k: int|
                1 <= k < v@.len() && least >= 1 && (k - 1) / 2 == least implies !(
                #[trigger] v@[k]).precedes(v@[(least - 1) / 2]) by {
                assert(!before[k].precedes(before[least as int]));
            }
        }
        i = least;
    }
}

/// A priority queue of frontier entries. `pop` hands out the entry with the
/// smallest distance, and among those the one with the smallest node id.
pub struct NodeQueue {
    nodes: Vec<HeapNode>,
}

impl View for NodeQueue {
    type V = Multiset<HeapNode>;

    /// The entries held, with their multiplicities.
    closed spec fn view(&self) -> Multiset<HeapNode> {
        self.nodes@.to_multiset()
    }
}

impl NodeQueue {
    /// The entries are laid out in heap order.
    pub closed spec fn wf(&self) -> bool {
        is_heap(self.nodes@)
    }

    /// An empty queue.
    pub fn new() -> (q: NodeQueue)
        ensures
            q.wf(),
            q@ == Multiset::<HeapNode>::empty(),
    {
        let q = NodeQueue { nodes: Vec::new() };
        proof {
            broadcast use vstd::seq_lib::group_to_multiset_ensures;

            assert(q.nodes@ =~= Seq::<HeapNode>::empty());
            assert(q@ =~= Multiset::<HeapNode>::empty());
        }
        q
    }

    /// An empty queue with room for `capacity` entries. The room is a matter
    /// between `Vec` and its allocator: it changes nothing about what the
    /// queue holds or hands out.
    pub fn with_capacity(capacity: usize) -> (q: NodeQueue)
        ensures
            q.wf(),
            q@ == Multiset::<HeapNode>::empty(),
    {
        let q = NodeQueue { nodes: Vec::with_capacity(capacity) };
        proof {
            broadcast use vstd::seq_lib::group_to_multiset_ensures;

            assert(q.nodes@ =~= Seq::<HeapNode>::empty());
            assert(q@ =~= Multiset::<HeapNode>::empty());
        }
        q
    }

    /// Number of entries held.
    pub fn len(&self) -> (n: usize)
        ensures
            n == self@.len(),
    {
        proof {
            broadcast use vstd::seq_lib::group_to_multiset_ensures;

        }
        self.nodes.len()
    }

    /// Whether no entry is held.
    pub fn is_empty(&self) -> (b: bool)
        ensures
            b == (self@.len() == 0),
    {
        self.len() == 0
    }

    /// Drops every entry.
    pub fn clear(&mut self)
        ensures
            final(self).wf(),
            final(self)@ == Multiset::<HeapNode>::empty(),
    {
        self.nodes.clear();
        proof {
            broadcast use vstd::seq_lib::group_to_multiset_ensures;

            assert(self.nodes@ =~= Seq::<HeapNode>::empty());
            assert(self@ =~= Multiset::<HeapNode>::empty());
        }
    }

    /// Adds one entry.
    pub fn push(&mut self, node: HeapNode)
        requires
            old(self).wf(),
        ensures
            final(self).wf(),
            final(self)@ == old(self)@.insert(node),
    {
        heap_push(&mut self.nodes, node);
    }

    /// Removes and returns the entry that no other entry precedes, or `None`
    /// when the queue is empty.
    pub fn pop(&mut self) -> (r: Option<HeapNode>)
        requires
            old(self).wf(),
        ensures
            final(self).wf(),
            old(self)@.len() == 0 ==> r.is_none() && final(self)@ == old(self)@,
            old(self)@.len() > 0 ==> r.is_some(),
            r matches Some(node) ==> {
                &&& old(self)@.count(node) > 0
                &&& final(self)@ == old(self)@.remove(node)
                &&& forall|e: HeapNode| old(self)@.count(e) > 0 ==> !e.precedes(node)
            },
    {
        proof {
            broadcast use vstd::seq_lib::group_to_multiset_ensures;

        }
        heap_pop(&mut self.nodes)
    }
}

fn heap_push(v: &mut Vec<HeapNode>, node: HeapNode)
    requires
        is_heap(old(v)@),
    ensures
        is_heap(final(v)@),
        final(v)@.to_multiset() == old(v)@.to_multiset().insert(node),
{
    proof {
        broadcast use vstd::seq_lib::group_to_multiset_ensures;

    }
    v.push(node);
    let last: usize = v.len() - 1;
    assert(heap_but_up(v@, last as int)) by {
        assert forall|i: int| 1 <= i < v@.len() && i != last implies !(#[trigger] v@[i]).precedes(
            v@[(i - 1) / 2],
        ) by {
            assert(v@[i] == old(v)@[i]);
            assert(v@[(i - 1) / 2] == old(v)@[(i - 1) / 2]);
        }
    }
    sift_up(v, last);
}

fn heap_pop(v: &mut Vec<HeapNode>) -> (r: Option<HeapNode>)
    requires
        is_heap(old(v)@),
    ensures
        is_heap(final(v)@),
        old(v)@.len() == 0 ==> r.is_none() && final(v)@ == old(v)@,
        old(v)@.len() > 0 ==> r.is_some(),
        r matches Some(node) ==> {
            &&& old(v)@.to_multiset().count(node) > 0
            &&& final(v)@.to_multiset() == old(v)@.to_multiset().remove(node)
            &&& forall|e: HeapNode| old(v)@.to_multiset().count(e) > 0 ==> !e.precedes(node)
        },
{
    if v.len() == 0 {
        return None;
    }
    proof {
        broadcast use vstd::seq_lib::group_to_multiset_ensures;
        broadcast use vstd::multiset::group_multiset_axioms;

    }
    let first = v[0];
    let ghost before = v@;
    assert forall|e: HeapNode| before.to_multiset().count(e) > 0 implies !e.precedes(first) by {
        assert(before.contains(e));
        let k = choose|k: int| 0 <= k < before.len() && before[k] == e;
        lemma_root_first(before, k);
    }
    assert(before.to_multiset().count(first) > 0) by {
        assert(before.contains(first));
    }
    let last = v.pop().unwrap();
    let ghost mid = v@;
    assert(mid == before.remove(before.len() - 1)) by {
        assert(mid =~= before.remove(before.len() - 1));
    }
    assert(mid.to_multiset() == before.to_multiset().remove(last));
    if v.len() == 0 {
        assert(last == first);
        return Some(first);
    }
    v[0] = last;
    assert(v@ == mid.update(0, last));
    assert(v@.to_multiset() =~= before.to_multiset().remove(first)) by {
        assert(v@.to_multiset() == mid.to_multiset().insert(last).remove(mid[0]));
        assert(mid[0] == first);
    }
    assert(heap_but_down(v@, 0)) by {
        assert forall|i: int| 1 <= i < v@.len() && (i - 1) / 2 != 0 implies !(#[trigger] v@[i]).precedes(
            v@[(i - 1) / 2],
        ) by {
            assert(v@[i] == before[i]);
            assert(v@[(i - 1) / 2] == before[(i - 1) / 2]);
        }
    }
    sift_down(v, 0);
    Some(first)
}

} // verus!
