//! Telling land from water: a node is land if a ray from it to the north
//! pole crosses the coastline of some ring an odd number of times, or if
//! the node lies on a coastline.
//!
//! Which way a bearing points is decided in floating point outside this
//! crate. What is decided here is which edges of which rings are asked
//! about, and what their answers add up to.

use crate::coast::{Coast, Coasts};
use crate::raster::{Coordinate, Node};
use vstd::prelude::*;

verus! {

/// What the bearings from the first point of a coastline edge say of a node:
/// whether the node lies in the direction of the edge, on which side of the
/// edge the north pole lies, and on which side the node lies. A side is -1,
/// 0 or 1.
#[derive(Clone, Copy, Debug, PartialEq, Eq, Structural)]
pub struct EdgeBearings {
    pub on_line: bool,
    pub water_side: i32,
    pub point_side: i32,
}

/// What a coastline edge asks for.
#[derive(Clone, Copy, Debug, PartialEq, Eq, Structural)]
pub enum EdgeCheck {
    /// The edge cannot be crossed by the ray of the node.
    Skip,
    /// The node is the first point of the edge.
    OnVertex,
    /// Bearings must decide.
    Bearing,
}

/// What the edge from `first` to `second` asks for when the node lies at
/// `x`: nothing if it runs along a meridian; else, that the node is land if
/// it lies at `first`; else nothing if the longitude of the node lies
/// outside the edge's, where the greater end counts only if it is 180
/// degrees east; else bearings.
pub open spec fn edge_check(x: Coordinate, first: Coordinate, second: Coordinate) -> EdgeCheck {
    if first.lon == second.lon {
        EdgeCheck::Skip
    } else if x == first {
        EdgeCheck::OnVertex
    } else {
        let smaller = if first.lon <= second.lon {
            first.lon
        } else {
            second.lon
        };
        let larger = if first.lon <= second.lon {
            second.lon
        } else {
            first.lon
        };
        if smaller <= x.lon && (x.lon < larger || larger == 1_800_000_000) {
            EdgeCheck::Bearing
        } else {
            EdgeCheck::Skip
        }
    }
}

/// The point after point `e` of a ring; after the last comes the first.
pub open spec fn next_point(ring: Seq<Coordinate>, e: int) -> Coordinate {
    ring[(e + 1) % (ring.len() as int)]
}

/// The edges among the first `upto` of `ring` that ask for bearings.
pub open spec fn requests_in(x: Coordinate, ring: Seq<Coordinate>, upto: int) -> Seq<
    (Coordinate, Coordinate),
>
    decreases upto,
{
    if upto <= 0 {
        Seq::empty()
    } else {
        let earlier = requests_in(x, ring, upto - 1);
        if edge_check(x, ring[upto - 1], next_point(ring, upto - 1)) is Bearing {
            earlier.push((ring[upto - 1], next_point(ring, upto - 1)))
        } else {
            earlier
        }
    }
}

/// The edges of `ring` that ask for bearings.
pub open spec fn ring_requests(x: Coordinate, ring: Seq<Coordinate>) -> Seq<
    (Coordinate, Coordinate),
> {
    requests_in(x, ring, ring.len() as int)
}

/// The longitude of `x` lies within the span of `coast`.
pub open spec fn in_reach(x: Coordinate, coast: Coast) -> bool {
    coast.leftmost <= x.lon <= coast.rightmost
}

/// The edges that ask for bearings among the first `upto` coasts, coast by
/// coast; coasts out of reach ask for none.
pub open spec fn requests_before(x: Coordinate, coasts: Seq<Coast>, upto: int) -> Seq<
    (Coordinate, Coordinate),
>
    decreases upto,
{
    if upto <= 0 {
        Seq::empty()
    } else {
        let earlier = requests_before(x, coasts, upto - 1);
        if in_reach(x, coasts[upto - 1]) {
            earlier + ring_requests(x, coasts[upto - 1].coordinates@)
        } else {
            earlier
        }
    }
}

/// All edges that ask for bearings when the node lies at `x`.
pub open spec fn all_requests(x: Coordinate, coasts: Seq<Coast>) -> Seq<(Coordinate, Coordinate)> {
    requests_before(x, coasts, coasts.len() as int)
}

/// The node and the north pole lie on opposite sides of the edge, or both
/// on it.
pub open spec fn crosses(b: EdgeBearings) -> bool {
    b.water_side == -b.point_side
}

/// How many of the answers from `from` up to `to` say that the edge is
/// crossed.
pub open spec fn crossings_between(bearings: Seq<EdgeBearings>, from: int, to: int) -> int
    decreases to - from,
{
    if to <= from {
        0
    } else {
        crossings_between(bearings, from, to - 1) + if crosses(bearings[to - 1]) {
            1int
        } else {
            0int
        }
    }
}

/// The node is the first point of an edge of `ring` that does not run along
/// a meridian.
pub open spec fn hits_vertex(x: Coordinate, ring: Seq<Coordinate>, upto: int) -> bool {
    exists|e: int| 0 <= e < upto && #[trigger] edge_check(x, ring[e], next_point(ring, e)) is OnVertex
}

/// One of the answers from `from` up to `to` says that the node lies in the
/// direction of its edge.
pub open spec fn hits_line(bearings: Seq<EdgeBearings>, from: int, to: int) -> bool {
    exists|j: int| from <= j < to && (#[trigger] bearings[j]).on_line
}

/// The ring makes the node land, given that its answers begin at `from`:
/// the node lies on a vertex or in the direction of an edge, or the ray to
/// the north pole crosses an odd number of edges.
pub open spec fn ring_is_land(
    x: Coordinate,
    ring: Seq<Coordinate>,
    bearings: Seq<EdgeBearings>,
    from: int,
) -> bool {
    let to = from + ring_requests(x, ring).len();
    hits_vertex(x, ring, ring.len() as int) || hits_line(bearings, from, to) || crossings_between(
        bearings,
        from,
        to,
    ) % 2 == 1
}

/// Coast `r` is in reach and makes the node land.
pub open spec fn coast_is_land(x: Coordinate, coasts: Seq<Coast>, bearings: Seq<EdgeBearings>, r: int) -> bool {
    in_reach(x, coasts[r]) && ring_is_land(
        x,
        coasts[r].coordinates@,
        bearings,
        requests_before(x, coasts, r).len() as int,
    )
}

/// The node at `x` is land: it lies on the south pole, or some coast in
/// reach makes it land. `bearings` answers `all_requests`, one by one.
pub open spec fn is_land(x: Coordinate, coasts: Seq<Coast>, bearings: Seq<EdgeBearings>) -> bool {
    x.lat == -900_000_000 || exists|r: int|
        0 <= r < coasts.len() && #[trigger] coast_is_land(x, coasts, bearings, r)
}

/// The node after its classification: land stays land, water stays water
/// unless it is found to be land.
pub open spec fn classified(node: Node, coasts: Seq<Coast>, bearings: Seq<EdgeBearings>) -> Node {
    Node {
        coordinate: node.coordinate,
        is_water: node.is_water && !is_land(node.coordinate, coasts, bearings),
    }
}

/// Classifying a node twice changes nothing that classifying it once has
/// not changed, and the outcome depends on the node, the coasts and the
/// answers alone.
pub proof fn lemma_classified_idempotent(node: Node, coasts: Seq<Coast>, bearings: Seq<EdgeBearings>)
    ensures
        classified(classified(node, coasts, bearings), coasts, bearings) == classified(
            node,
            coasts,
            bearings,
        ),
{
}

/// No answer from `from` up to `to` says that its edge is crossed, so the
/// crossings are none.
proof fn lemma_no_crossings(bearings: Seq<EdgeBearings>, from: int, to: int)
    requires
        0 <= from,
        to <= bearings.len(),
        forall|j: int| 0 <= j < bearings.len() ==> !crosses(#[trigger] bearings[j]),
    ensures
        crossings_between(bearings, from, to) == 0,
    decreases to - from,
{
    if from < to {
        lemma_no_crossings(bearings, from, to - 1);
    }
}

/// A node stays what it was where it is not the south pole, lies on no
/// point of a coast, and every answer says that it lies neither in the
/// direction of the edge nor across the edge from the north pole. So it is
/// with a node on the north pole itself, which lies on the pole's side of
/// every edge.
pub proof fn lemma_on_the_side_of_the_pole(
    node: Node,
    coasts: Seq<Coast>,
    bearings: Seq<EdgeBearings>,
)
    requires
        bearings.len() == all_requests(node.coordinate, coasts).len(),
        node.coordinate.lat != -900_000_000,
        forall|r: int, e: int|
            0 <= r < coasts.len() && 0 <= e < coasts[r].coordinates@.len() ==> (
            #[trigger] coasts[r].coordinates@[e]) != node.coordinate,
        forall|j: int|
            0 <= j < bearings.len() ==> !(#[trigger] bearings[j]).on_line && !crosses(bearings[j]),
    ensures
        classified(node, coasts, bearings) == node,
{
    let x = node.coordinate;
    assert forall|r: int| 0 <= r < coasts.len() implies !#[trigger] coast_is_land(
        x,
        coasts,
        bearings,
        r,
    ) by {
        if in_reach(x, coasts[r]) {
            let ring = coasts[r].coordinates@;
            let from = requests_before(x, coasts, r).len() as int;
            let to = from + ring_requests(x, ring).len();
            lemma_requests_before_grow(x, coasts, r, coasts.len() as int);
            assert(to <= bearings.len());
            lemma_no_crossings(bearings, from, to);
            assert(!hits_vertex(x, ring, ring.len() as int)) by {
                assert forall|e: int| 0 <= e < ring.len() implies !(#[trigger] edge_check(
                    x,
                    ring[e],
                    next_point(ring, e),
                ) is OnVertex) by {
                    assert(coasts[r].coordinates@[e] != x);
                }
            }
        }
    }
}

proof fn lemma_requests_in_grow(x: Coordinate, ring: Seq<Coordinate>, e: int, upto: int)
    requires
        0 <= e <= upto,
    ensures
        requests_in(x, ring, e).len() <= requests_in(x, ring, upto).len(),
        requests_in(x, ring, upto).len() <= upto,
    decreases upto,
{
    if e < upto {
        lemma_requests_in_grow(x, ring, e, upto - 1);
    } else if upto > 0 {
        lemma_requests_in_grow(x, ring, upto - 1, upto - 1);
    }
}

proof fn lemma_requests_before_grow(x: Coordinate, coasts: Seq<Coast>, r: int, upto: int)
    requires
        0 <= r <= upto,
    ensures
        requests_before(x, coasts, r).len() <= requests_before(x, coasts, upto).len(),
        r < upto && in_reach(x, coasts[r]) ==> requests_before(x, coasts, r).len() + ring_requests(
            x,
            coasts[r].coordinates@,
        ).len() <= requests_before(x, coasts, upto).len(),
    decreases upto,
{
    if r < upto {
        lemma_requests_before_grow(x, coasts, r, upto - 1);
    }
}

/// What bearings from the first point of an edge ask for.
pub fn check_edge(x: Coordinate, first: Coordinate, second: Coordinate) -> (c: EdgeCheck)
    ensures
        c == edge_check(x, first, second),
{
    if first.lon == second.lon {
        return EdgeCheck::Skip;
    }
    if x.lat == first.lat && x.lon == first.lon {
        return EdgeCheck::OnVertex;
    }
    let smaller_lon: i32;
    let larger_lon: i32;
    if first.lon <= second.lon {
        smaller_lon = first.lon;
        larger_lon = second.lon;
    } else {
        smaller_lon = second.lon;
        larger_lon = first.lon;
    }
    if !(smaller_lon <= x.lon && (x.lon < larger_lon || larger_lon == 1_800_000_000)) {
        return EdgeCheck::Skip;
    }
    EdgeCheck::Bearing
}

impl Node {
    /// The coastline edges whose bearings decide whether the node is land,
    /// ring by ring and edge by edge.
    pub fn bearing_requests(&self, coasts: &Coasts) -> (out: Vec<(Coordinate, Coordinate)>)
        ensures
            out@ == all_requests(self.coordinate, coasts.actual_coasts@),
    {
        let x = self.coordinate;
        let mut out: Vec<(Coordinate, Coordinate)> = Vec::new();
        let mut r: usize = 0;
        while r < coasts.actual_coasts.len()
            invariant
                x == self.coordinate,
                r <= coasts.actual_coasts@.len(),
                out@ == requests_before(x, coasts.actual_coasts@, r as int),
            decreases coasts.actual_coasts@.len() - r,
        {
            let coast = &coasts.actual_coasts[r];
            if coast.leftmost <= x.lon && x.lon <= coast.rightmost {
                let ghost base = out@;
                let count: usize = coast.coordinates.len();
                let mut e: usize = 0;
                while e < count
                    invariant
                        count == coast.coordinates@.len(),
                        e <= count,
                        out@ == base + requests_in(x, coast.coordinates@, e as int),
                    decreases count - e,
                {
                    let first = coast.coordinates[e];
                    let second = coast.coordinates[(e + 1) % count];
                    match check_edge(x, first, second) {
                        EdgeCheck::Bearing => {
                            out.push((first, second));
                            proof {
                                assert(out@ =~= base + requests_in(
                                    x,
                                    coast.coordinates@,
                                    e + 1,
                                ));
                            }
                        },
                        _ => {},
                    }
                    e += 1;
                }
            }
            r += 1;
        }
        out
    }

    /// Marks the node as land if it is land. `bearings` answers the edges of
    /// `bearing_requests`, one by one.
    pub fn set_water_flag(&mut self, coasts: &Coasts, bearings: &Vec<EdgeBearings>)
        requires
            bearings@.len() == all_requests(old(self).coordinate, coasts.actual_coasts@).len(),
        ensures
            *final(self) == classified(*old(self), coasts.actual_coasts@, bearings@),
    {
        let x = self.coordinate;
        let ghost all = coasts.actual_coasts@;
        if x.lat == -900_000_000 {
            self.is_water = false;
            return ;
        }
        let answers: usize = bearings.len();
        let mut cursor: usize = 0;
        let mut r: usize = 0;
        while r < coasts.actual_coasts.len()
            invariant
                answers == bearings@.len(),
                x == self.coordinate,
                *self == *old(self),
                all == coasts.actual_coasts@,
                x.lat != -900_000_000,
                bearings@.len() == all_requests(x, all).len(),
                r <= all.len(),
                cursor == requests_before(x, all, r as int).len(),
                forall|q: int| 0 <= q < r ==> !#[trigger] coast_is_land(x, all, bearings@, q),
            decreases all.len() - r,
        {
            let coast = &coasts.actual_coasts[r];
            proof {
                lemma_requests_before_grow(x, all, r as int, all.len() as int);
            }
            if coast.leftmost <= x.lon && x.lon <= coast.rightmost {
                let ghost ring = coast.coordinates@;
                let ghost from = cursor as int;
                let count: usize = coast.coordinates.len();
                let mut intersection_count: usize = 0;
                let mut e: usize = 0;
                while e < count
                    invariant
                        answers == bearings@.len(),
                        x == self.coordinate,
                        *self == *old(self),
                        all == coasts.actual_coasts@,
                        r < all.len(),
                        ring == all[r as int].coordinates@,
                        ring == coast.coordinates@,
                        in_reach(x, all[r as int]),
                        count == ring.len(),
                        e <= count,
                        from == requests_before(x, all, r as int).len(),
                        from + ring_requests(x, ring).len() <= bearings@.len(),
                        cursor == from + requests_in(x, ring, e as int).len(),
                        intersection_count == crossings_between(bearings@, from, cursor as int),
                        intersection_count <= e,
                        !hits_vertex(x, ring, e as int),
                        !hits_line(bearings@, from, cursor as int),
                    decreases count - e,
                {
                    let first = coast.coordinates[e];
                    let second = coast.coordinates[(e + 1) % count];
                    proof {
                        lemma_requests_in_grow(x, ring, e + 1, count as int);
                    }
                    match check_edge(x, first, second) {
                        EdgeCheck::Skip => {},
                        EdgeCheck::OnVertex => {
                            proof {
                                assert(edge_check(x, ring[e as int], next_point(ring, e as int)) is OnVertex);
                                assert(hits_vertex(x, ring, ring.len() as int));
                                assert(coast_is_land(x, all, bearings@, r as int));
                            }
                            self.is_water = false;
                            return ;
                        },
                        EdgeCheck::Bearing => {
                            let answer = bearings[cursor];
                            if answer.on_line {
                                proof {
                                    assert(bearings@[cursor as int].on_line);
                                    assert(hits_line(
                                        bearings@,
                                        from,
                                        from + ring_requests(x, ring).len(),
                                    ));
                                    assert(coast_is_land(x, all, bearings@, r as int));
                                }
                                self.is_water = false;
                                return ;
                            }
                            if answer.water_side as i64 == -(answer.point_side as i64) {
                                intersection_count += 1;
                            }
                            cursor += 1;
                        },
                    }
                    proof {
                        assert forall|q: int| 0 <= q < e + 1 implies !(#[trigger] edge_check(
                            x,
                            ring[q],
                            next_point(ring, q),
                        ) is OnVertex) by {
                            if q < e {
                                assert(!hits_vertex(x, ring, e as int));
                            }
                        }
                    }
                    e += 1;
                }
                if intersection_count % 2 == 1 {
                    proof {
                        assert(coast_is_land(x, all, bearings@, r as int));
                    }
                    self.is_water = false;
                    return ;
                }
                proof {
                    assert(!coast_is_land(x, all, bearings@, r as int));
                }
            }
            r += 1;
        }
        proof {
            assert(!is_land(x, all, bearings@));
        }
    }
}

} // verus!
