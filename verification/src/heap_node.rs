//! Entries of the search frontier and their priority order.

use std::cmp::Ordering;
use vstd::prelude::*;

verus! {

/// A frontier entry: a node together with the key it was queued under.
#[derive(Clone, Copy, Debug, PartialEq, Eq, Structural)]
pub struct HeapNode {
    pub id: u32,
    pub distance: u32,
}

impl HeapNode {
    /// `self` leaves a queue strictly before `other`: it has the smaller
    /// distance, or the same distance and the smaller node id.
    pub open spec fn precedes(self, other: HeapNode) -> bool {
        self.distance < other.distance || (self.distance == other.distance && self.id
            < other.id)
    }

    /// Decides `precedes`.
    pub fn is_before(&self, other: &HeapNode) -> (b: bool)
        ensures
            b == self.precedes(*other),
    {
        self.distance < other.distance || (self.distance == other.distance && self.id
            < other.id)
    }
}

/// The greater of two entries is the one that leaves the queue first.
impl PartialOrd for HeapNode {
    fn partial_cmp(&self, other: &HeapNode) -> (r: Option<Ordering>) {
        if self.is_before(other) {
            Some(Ordering::Greater)
        } else if other.is_before(self) {
            Some(Ordering::Less)
        } else {
            Some(Ordering::Equal)
        }
    }
}

impl vstd::std_specs::cmp::PartialOrdSpecImpl for HeapNode {
    open spec fn obeys_partial_cmp_spec() -> bool {
        true
    }

    open spec fn partial_cmp_spec(&self, other: &HeapNode) -> Option<Ordering> {
        if self.precedes(*other) {
            Some(Ordering::Greater)
        } else if other.precedes(*self) {
            Some(Ordering::Less)
        } else {
            Some(Ordering::Equal)
        }
    }
}

/// The priority order is a strict total order on entries.
pub proof fn lemma_precedes_total_order(a: HeapNode, b: HeapNode, c: HeapNode)
    ensures
        !a.precedes(a),
        a.precedes(b) ==> !b.precedes(a),
        a.precedes(b) && b.precedes(c) ==> a.precedes(c),
        a != b ==> a.precedes(b) || b.precedes(a),
{
}

} // verus!
