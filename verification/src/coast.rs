//! Coastlines: joining the fragments of a map into closed rings.

use crate::raster::Coordinate;
use std::collections::HashMap;
use vstd::prelude::*;

verus! {

/// A closed coastline with the span of its longitudes.
pub struct Coast {
    pub coordinates: Vec<Coordinate>,
    pub leftmost: i32,
    pub rightmost: i32,
}

/// All coastlines of a map.
pub struct Coasts {
    pub actual_coasts: Vec<Coast>,
}

/// Why fragments could not be joined into rings.
#[derive(Clone, Copy, Debug, PartialEq, Eq, Structural)]
pub enum AssemblyError {
    /// The fragment of this number has no point.
    EmptyWay(usize),
    /// A ring got as far as this point, where no unused fragment begins.
    MissingContinuation(Coordinate),
}

/// `left` and `right` are the smallest and the largest longitude among
/// `points`.
pub open spec fn is_extent(points: Seq<Coordinate>, left: i32, right: i32) -> bool {
    &&& forall|i: int| 0 <= i < points.len() ==> left <= (#[trigger] points[i]).lon <= right
    &&& exists|i: int| 0 <= i < points.len() && (#[trigger] points[i]).lon == left
    &&& exists|i: int| 0 <= i < points.len() && (#[trigger] points[i]).lon == right
}

/// The span of no point at all, or the span of `points`.
pub open spec fn extent_so_far(points: Seq<Coordinate>, left: i32, right: i32) -> bool {
    if points.len() == 0 {
        left == i32::MAX && right == i32::MIN
    } else {
        is_extent(points, left, right)
    }
}

/// The number that stands for a point in the index of fragments.
pub open spec fn coordinate_key(c: Coordinate) -> u64 {
    ((c.lon + 0x8000_0000) * 0x1_0000_0000 + (c.lat + 0x8000_0000)) as u64
}

/// Different points have different keys.
pub proof fn lemma_key_injective(a: Coordinate, b: Coordinate)
    requires
        coordinate_key(a) == coordinate_key(b),
    ensures
        a == b,
{
}

/// The key of the point where fragment `i` begins.
pub open spec fn first_key(ways: Seq<Vec<Coordinate>>, i: int) -> u64 {
    coordinate_key(ways[i]@[0])
}

/// The index of the first `upto` fragments: the key of a point leads to the
/// last fragment that begins there.
pub open spec fn index_of(ways: Seq<Vec<Coordinate>>, upto: int) -> Map<u64, usize>
    decreases upto,
{
    if upto <= 0 {
        Map::empty()
    } else {
        index_of(ways, upto - 1).insert(first_key(ways, upto - 1), (upto - 1) as usize)
    }
}

/// Fragment `i` is the one that the index holds for its first point.
pub open spec fn is_indexed(ways: Seq<Vec<Coordinate>>, i: int) -> bool {
    0 <= i < ways.len() && index_of(ways, ways.len() as int)[first_key(ways, i)] == i
}

/// No fragment is without points.
pub open spec fn no_empty_way(ways: Seq<Vec<Coordinate>>) -> bool {
    forall|i: int| 0 <= i < ways.len() ==> (#[trigger] ways[i])@.len() > 0
}

/// The fragments can be joined into rings: none is empty, where one ends
/// another begins, and no two end at the same point.
pub open spec fn assembles(ways: Seq<Vec<Coordinate>>) -> bool {
    &&& no_empty_way(ways)
    &&& forall|i: int| #[trigger]
        is_indexed(ways, i) ==> index_of(ways, ways.len() as int).contains_key(
            coordinate_key(ways[i]@.last()),
        )
    &&& forall|i: int, j: int|
        #[trigger] is_indexed(ways, i) && #[trigger] is_indexed(ways, j) && i != j
            ==> ways[i]@.last() != ways[j]@.last()
}

/// The points of the fragments `chain`, one fragment after the other.
pub open spec fn chain_points(ways: Seq<Vec<Coordinate>>, chain: Seq<int>) -> Seq<Coordinate>
    decreases chain.len(),
{
    if chain.len() == 0 {
        Seq::empty()
    } else {
        chain_points(ways, chain.drop_last()) + ways[chain.last()]@
    }
}

/// Each fragment of `chain` is indexed and begins where the one before it
/// ends.
pub open spec fn is_chain(ways: Seq<Vec<Coordinate>>, chain: Seq<int>) -> bool {
    &&& chain.len() >= 1
    &&& forall|j: int| 0 <= j < chain.len() ==> is_indexed(ways, #[trigger] chain[j])
    &&& forall|j: int|
        0 <= j < chain.len() - 1 ==> ways[chain[j]]@.last() == ways[#[trigger] chain[j + 1]]@[0]
}

/// A chain whose last fragment ends where its first begins.
pub open spec fn is_closed_chain(ways: Seq<Vec<Coordinate>>, chain: Seq<int>) -> bool {
    is_chain(ways, chain) && ways[chain.last()]@.last() == ways[chain[0]]@[0]
}

/// All fragments of all chains, chain after chain.
pub open spec fn chained(chains: Seq<Seq<int>>) -> Seq<int>
    decreases chains.len(),
{
    if chains.len() == 0 {
        Seq::empty()
    } else {
        chained(chains.drop_last()) + chains.last()
    }
}

/// `coast` is the ring of the closed chain `chain`.
pub open spec fn is_ring_of(ways: Seq<Vec<Coordinate>>, coast: Coast, chain: Seq<int>) -> bool {
    &&& is_closed_chain(ways, chain)
    &&& coast.coordinates@ == chain_points(ways, chain)
    &&& coast.coordinates@.len() >= 1
    &&& coast.coordinates@[0] == coast.coordinates@.last()
    &&& is_extent(coast.coordinates@, coast.leftmost, coast.rightmost)
}

/// `coasts` are the rings of the chains `chains`, which between them use
/// every indexed fragment once.
pub open spec fn is_assembly(ways: Seq<Vec<Coordinate>>, coasts: Seq<Coast>, chains: Seq<Seq<int>>) -> bool {
    &&& coasts.len() == chains.len()
    &&& forall|r: int| 0 <= r < coasts.len() ==> is_ring_of(ways, #[trigger] coasts[r], chains[r])
    &&& chained(chains).no_duplicates()
    &&& forall|i: int| is_indexed(ways, i) <==> #[trigger] chained(chains).contains(i)
    &&& heads_lead(chains)
}

/// Each chain begins with the fragment of its smallest number, and the
/// chains come in ascending order of these numbers.
pub open spec fn heads_lead(chains: Seq<Seq<int>>) -> bool {
    &&& forall|r: int, m: int|
        0 <= r < chains.len() && 1 <= m < chains[r].len() ==> chains[r][0] < #[trigger] chains[r][m]
    &&& forall|r: int, r2: int|
        0 <= r < r2 < chains.len() ==> (#[trigger] chains[r])[0] < (#[trigger] chains[r2])[0]
}

/// What the index says of its keys and of the fragments.
pub proof fn lemma_index(ways: Seq<Vec<Coordinate>>, upto: int)
    requires
        0 <= upto <= ways.len(),
        ways.len() <= usize::MAX,
    ensures
        forall|k: u64| #[trigger]
            index_of(ways, upto).contains_key(k) ==> 0 <= index_of(ways, upto)[k] < upto
                && first_key(ways, index_of(ways, upto)[k] as int) == k,
        forall|i: int|
            0 <= i < upto ==> index_of(ways, upto).contains_key(#[trigger] first_key(ways, i)),
    decreases upto,
{
    if upto > 0 {
        lemma_index(ways, upto - 1);
        let shorter = index_of(ways, upto - 1);
        let longer = index_of(ways, upto);
        let fresh = first_key(ways, upto - 1);
        assert(longer == shorter.insert(fresh, (upto - 1) as usize));
        assert forall|k: u64| #[trigger] longer.contains_key(k) implies 0 <= longer[k] < upto
            && first_key(ways, longer[k] as int) == k by {
            if k != fresh {
                assert(shorter.contains_key(k));
            }
        }
        assert forall|i: int| 0 <= i < upto implies longer.contains_key(
            #[trigger] first_key(ways, i),
        ) by {
            if i < upto - 1 {
                assert(shorter.contains_key(first_key(ways, i)));
            }
        }
    }
}

/// Bookkeeping of the joining that no compiled code reads: the fragments
/// used, the chains of the rings made, the chain of the ring in the making,
/// and for each used fragment the one before and the one after it.
struct Progress {
    consumed: Set<int>,
    chains: Seq<Seq<int>>,
    chain: Seq<int>,
    before: Map<int, int>,
    after: Map<int, int>,
}

spec fn head(p: Progress) -> int {
    if p.chain.len() > 0 {
        p.chain[0]
    } else {
        -1
    }
}

spec fn tail(p: Progress) -> int {
    if p.chain.len() > 0 {
        p.chain.last()
    } else {
        -1
    }
}

spec fn order(p: Progress) -> Seq<int> {
    chained(p.chains) + p.chain
}

spec fn links_ok(ways: Seq<Vec<Coordinate>>, p: Progress) -> bool {
    &&& forall|x: int|
        p.consumed.contains(x) && x != head(p) ==> p.consumed.contains(#[trigger] p.before[x])
            && p.before[x] != tail(p) && ways[p.before[x]]@.last() == ways[x]@[0]
    &&& forall|x: int|
        p.consumed.contains(x) && x != tail(p) ==> p.consumed.contains(#[trigger] p.after[x])
            && p.after[x] != head(p) && ways[p.after[x]]@[0] == ways[x]@.last()
            && p.before[p.after[x]] == x
}

spec fn progress_ok(ways: Seq<Vec<Coordinate>>, p: Progress, index: Map<u64, usize>) -> bool {
    let full = index_of(ways, ways.len() as int);
    &&& no_empty_way(ways)
    &&& ways.len() <= usize::MAX
    &&& forall|k: u64| #[trigger]
        index.contains_key(k) <==> (full.contains_key(k) && !p.consumed.contains(full[k] as int))
    &&& forall|k: u64| #[trigger] index.contains_key(k) ==> index[k] == full[k]
    &&& forall|x: int| #[trigger] p.consumed.contains(x) ==> is_indexed(ways, x)
    &&& forall|x: int| #[trigger] order(p).contains(x) ==> p.consumed.contains(x)
    &&& forall|x: int| #[trigger] p.consumed.contains(x) ==> order(p).contains(x)
    &&& order(p).no_duplicates()
    &&& forall|r: int| 0 <= r < p.chains.len() ==> is_closed_chain(ways, #[trigger] p.chains[r])
    &&& (p.chain.len() > 0 ==> is_chain(ways, p.chain))
    &&& links_ok(ways, p)
}

spec fn initial_progress() -> Progress {
    Progress {
        consumed: Set::empty(),
        chains: Seq::empty(),
        chain: Seq::empty(),
        before: Map::empty(),
        after: Map::empty(),
    }
}

spec fn started(p: Progress, s: int) -> Progress {
    Progress { consumed: p.consumed.insert(s), chain: seq![s], ..p }
}

spec fn extended(p: Progress, j: int) -> Progress {
    Progress {
        consumed: p.consumed.insert(j),
        chain: p.chain.push(j),
        before: p.before.insert(j, tail(p)),
        after: p.after.insert(tail(p), j),
        ..p
    }
}

spec fn closed(p: Progress) -> Progress {
    Progress {
        chains: p.chains.push(p.chain),
        chain: Seq::empty(),
        before: p.before.insert(head(p), tail(p)),
        after: p.after.insert(tail(p), head(p)),
        ..p
    }
}

/// The chains made so far begin below `low` and lead as `heads_lead` says;
/// the chain in the making begins at `low` and goes on above it.
spec fn heads_ok(p: Progress, low: int) -> bool {
    &&& heads_lead(p.chains)
    &&& forall|r: int| 0 <= r < p.chains.len() ==> (#[trigger] p.chains[r])[0] < low
    &&& (p.chain.len() > 0 ==> p.chain[0] == low)
    &&& forall|m: int| 1 <= m < p.chain.len() ==> low < #[trigger] p.chain[m]
}

proof fn lemma_heads_extended(p: Progress, low: int, j: int)
    requires
        heads_ok(p, low),
        p.chain.len() > 0,
        low < j,
    ensures
        heads_ok(extended(p, j), low),
{
    let q = extended(p, j);
    assert forall|m: int| 1 <= m < q.chain.len() implies low < #[trigger] q.chain[m] by {
        if m < p.chain.len() {
            assert(low < p.chain[m]);
        }
    }
}

proof fn lemma_heads_closed(p: Progress, low: int)
    requires
        heads_ok(p, low),
        p.chain.len() > 0,
    ensures
        heads_ok(closed(p), low + 1),
{
    let q = closed(p);
    assert forall|r: int, m: int|
        0 <= r < q.chains.len() && 1 <= m < q.chains[r].len() implies q.chains[r][0]
        < #[trigger] q.chains[r][m] by {
        if r < p.chains.len() {
            assert(p.chains[r][0] < p.chains[r][m]);
        } else {
            assert(low < p.chain[m]);
        }
    }
    assert forall|r: int, r2: int| 0 <= r < r2 < q.chains.len() implies (#[trigger] q.chains[r])[0]
        < (#[trigger] q.chains[r2])[0] by {
        if r2 < p.chains.len() {
            assert(p.chains[r][0] < p.chains[r2][0]);
        } else {
            assert(p.chains[r][0] < low);
        }
    }
    assert forall|r: int| 0 <= r < q.chains.len() implies (#[trigger] q.chains[r])[0] < low + 1 by {
        if r < p.chains.len() {
            assert(p.chains[r][0] < low);
        }
    }
}

proof fn lemma_initial(ways: Seq<Vec<Coordinate>>)
    requires
        no_empty_way(ways),
        ways.len() <= usize::MAX,
    ensures
        progress_ok(ways, initial_progress(), index_of(ways, ways.len() as int)),
{
    let p = initial_progress();
    assert(order(p) =~= Seq::<int>::empty());
}

proof fn lemma_started(ways: Seq<Vec<Coordinate>>, p: Progress, index: Map<u64, usize>, s: int)
    requires
        progress_ok(ways, p, index),
        p.chain.len() == 0,
        0 <= s < ways.len(),
        index.contains_key(first_key(ways, s)),
        index[first_key(ways, s)] == s,
    ensures
        progress_ok(ways, started(p, s), index.remove(first_key(ways, s))),
        is_indexed(ways, s),
        !p.consumed.contains(s),
{
    let full = index_of(ways, ways.len() as int);
    let q = started(p, s);
    let index2 = index.remove(first_key(ways, s));
    lemma_index(ways, ways.len() as int);
    assert(order(p) =~= chained(p.chains));
    assert(order(q) =~= order(p).push(s));
    assert forall|k: u64| #[trigger]
        index2.contains_key(k) <==> (full.contains_key(k) && !q.consumed.contains(
            full[k] as int,
        )) by {
        if full.contains_key(k) && full[k] == s {
            assert(first_key(ways, s) == k);
        }
    }
    assert forall|x: int| #[trigger] order(q).contains(x) implies q.consumed.contains(x) by {
        vstd::seq_lib::lemma_seq_contains_after_push(order(p), s, x);
    }
    assert forall|x: int| #[trigger] q.consumed.contains(x) implies order(q).contains(x) by {
        vstd::seq_lib::lemma_seq_contains_after_push(order(p), s, x);
    }
    assert(order(q).no_duplicates()) by {
        lemma_push_fresh(order(p), s);
    }
    assert(is_chain(ways, q.chain));
    assert(links_ok(ways, q)) by {
        assert forall|x: int| q.consumed.contains(x) && x != head(q) implies q.consumed.contains(
            #[trigger] q.before[x],
        ) && q.before[x] != tail(q) && ways[q.before[x]]@.last() == ways[x]@[0] by {
            assert(p.consumed.contains(p.before[x]));
        }
        assert forall|x: int| q.consumed.contains(x) && x != tail(q) implies q.consumed.contains(
            #[trigger] q.after[x],
        ) && q.after[x] != head(q) && ways[q.after[x]]@[0] == ways[x]@.last() && q.before[q.after[x]]
            == x by {
            assert(p.consumed.contains(p.after[x]));
        }
    }
}

/// A sequence without duplicates stays so when something new is added.
proof fn lemma_push_fresh(s: Seq<int>, x: int)
    requires
        s.no_duplicates(),
        !s.contains(x),
    ensures
        s.push(x).no_duplicates(),
{
    assert forall|i: int, j: int|
        0 <= i < s.push(x).len() && 0 <= j < s.push(x).len() && i != j implies s.push(x)[i]
        != s.push(x)[j] by {
        if i < s.len() && j < s.len() {
        } else if i < s.len() {
            assert(s[i] != x) by {
                if s[i] == x {
                    assert(s.contains(x));
                }
            }
        } else {
            assert(s[j] != x) by {
                if s[j] == x {
                    assert(s.contains(x));
                }
            }
        }
    }
}

proof fn lemma_extended(ways: Seq<Vec<Coordinate>>, p: Progress, index: Map<u64, usize>, j: int)
    requires
        progress_ok(ways, p, index),
        p.chain.len() > 0,
        index.contains_key(coordinate_key(ways[tail(p)]@.last())),
        index[coordinate_key(ways[tail(p)]@.last())] == j,
    ensures
        progress_ok(ways, extended(p, j), index.remove(coordinate_key(ways[tail(p)]@.last()))),
        is_indexed(ways, j),
        !p.consumed.contains(j),
        ways[j]@[0] == ways[tail(p)]@.last(),
{
    let full = index_of(ways, ways.len() as int);
    let q = extended(p, j);
    let t = tail(p);
    let key = coordinate_key(ways[t]@.last());
    let index2 = index.remove(key);
    lemma_index(ways, ways.len() as int);
    assert(first_key(ways, j) == key);
    lemma_key_injective(ways[j]@[0], ways[t]@.last());
    assert(order(q) =~= order(p).push(j));
    assert(p.consumed.contains(t)) by {
        assert(order(p)[order(p).len() - 1] == t);
        assert(order(p).contains(t));
    }
    assert(p.consumed.contains(head(p))) by {
        assert(order(p)[chained(p.chains).len() as int] == head(p));
        assert(order(p).contains(head(p)));
    }
    assert forall|k: u64| #[trigger]
        index2.contains_key(k) <==> (full.contains_key(k) && !q.consumed.contains(
            full[k] as int,
        )) by {
        if full.contains_key(k) && full[k] == j {
            assert(first_key(ways, j) == k);
        }
    }
    assert forall|x: int| #[trigger] order(q).contains(x) implies q.consumed.contains(x) by {
        vstd::seq_lib::lemma_seq_contains_after_push(order(p), j, x);
    }
    assert forall|x: int| #[trigger] q.consumed.contains(x) implies order(q).contains(x) by {
        vstd::seq_lib::lemma_seq_contains_after_push(order(p), j, x);
    }
    assert(order(q).no_duplicates()) by {
        lemma_push_fresh(order(p), j);
    }
    assert(is_chain(ways, q.chain)) by {
        assert forall|m: int| 0 <= m < q.chain.len() implies is_indexed(
            ways,
            #[trigger] q.chain[m],
        ) by {
            if m < p.chain.len() {
                assert(is_indexed(ways, p.chain[m]));
            }
        }
        assert forall|m: int| 0 <= m < q.chain.len() - 1 implies ways[q.chain[m]]@.last()
            == ways[#[trigger] q.chain[m + 1]]@[0] by {
            if m < p.chain.len() - 1 {
                assert(ways[p.chain[m]]@.last() == ways[p.chain[m + 1]]@[0]);
            }
        }
    }
    assert(links_ok(ways, q)) by {
        assert forall|x: int| q.consumed.contains(x) && x != head(q) implies q.consumed.contains(
            #[trigger] q.before[x],
        ) && q.before[x] != tail(q) && ways[q.before[x]]@.last() == ways[x]@[0] by {
            if x != j {
                assert(p.consumed.contains(p.before[x]));
            }
        }
        assert forall|x: int| q.consumed.contains(x) && x != tail(q) implies q.consumed.contains(
            #[trigger] q.after[x],
        ) && q.after[x] != head(q) && ways[q.after[x]]@[0] == ways[x]@.last() && q.before[q.after[x]]
            == x by {
            if x != t {
                assert(p.consumed.contains(p.after[x]));
            }
        }
    }
}

proof fn lemma_closed(ways: Seq<Vec<Coordinate>>, p: Progress, index: Map<u64, usize>)
    requires
        progress_ok(ways, p, index),
        p.chain.len() > 0,
        ways[tail(p)]@.last() == ways[head(p)]@[0],
    ensures
        progress_ok(ways, closed(p), index),
        is_closed_chain(ways, p.chain),
{
    let q = closed(p);
    let h = head(p);
    let t = tail(p);
    assert(q.chains.drop_last() =~= p.chains);
    assert(order(q) =~= order(p));
    assert(p.consumed.contains(t)) by {
        assert(order(p)[order(p).len() - 1] == t);
        assert(order(p).contains(t));
    }
    assert(p.consumed.contains(h)) by {
        assert(order(p)[chained(p.chains).len() as int] == h);
        assert(order(p).contains(h));
    }
    assert forall|r: int| 0 <= r < q.chains.len() implies is_closed_chain(
        ways,
        #[trigger] q.chains[r],
    ) by {
        if r < p.chains.len() {
            assert(is_closed_chain(ways, p.chains[r]));
        }
    }
    assert(links_ok(ways, q)) by {
        assert forall|x: int| q.consumed.contains(x) && x != head(q) implies q.consumed.contains(
            #[trigger] q.before[x],
        ) && q.before[x] != tail(q) && ways[q.before[x]]@.last() == ways[x]@[0] by {
            if x != h {
                assert(p.consumed.contains(p.before[x]));
            }
        }
        assert forall|x: int| q.consumed.contains(x) && x != tail(q) implies q.consumed.contains(
            #[trigger] q.after[x],
        ) && q.after[x] != head(q) && ways[q.after[x]]@[0] == ways[x]@.last() && q.before[q.after[x]]
            == x by {
            if x != t {
                assert(p.consumed.contains(p.after[x]));
            }
        }
    }
}

/// Where the ring in the making ends at a point at which no unused
/// fragment begins, the fragments cannot be joined into rings.
proof fn lemma_stuck(ways: Seq<Vec<Coordinate>>, p: Progress, index: Map<u64, usize>)
    requires
        progress_ok(ways, p, index),
        p.chain.len() > 0,
        ways[tail(p)]@.last() != ways[head(p)]@[0],
        !index.contains_key(coordinate_key(ways[tail(p)]@.last())),
    ensures
        !assembles(ways),
        is_indexed(ways, tail(p)),
{
    let full = index_of(ways, ways.len() as int);
    let t = tail(p);
    let c = ways[t]@.last();
    let key = coordinate_key(c);
    lemma_index(ways, ways.len() as int);
    assert(is_indexed(ways, p.chain[p.chain.len() - 1]));
    if assembles(ways) {
        assert(full.contains_key(key));
        let x = full[key] as int;
        assert(p.consumed.contains(x));
        assert(first_key(ways, x) == key);
        lemma_key_injective(ways[x]@[0], c);
        assert(x != head(p));
        let b = p.before[x];
        assert(p.consumed.contains(b));
        assert(is_indexed(ways, b));
        assert(is_indexed(ways, t));
        assert(false);
    }
}

/// Where every indexed fragment is used and no ring is in the making, the
/// fragments can be joined, and the chains use each indexed fragment once.
proof fn lemma_done(ways: Seq<Vec<Coordinate>>, p: Progress, index: Map<u64, usize>)
    requires
        progress_ok(ways, p, index),
        p.chain.len() == 0,
        forall|i: int| #[trigger] is_indexed(ways, i) ==> p.consumed.contains(i),
    ensures
        assembles(ways),
        chained(p.chains).no_duplicates(),
        forall|i: int| is_indexed(ways, i) <==> #[trigger] chained(p.chains).contains(i),
{
    let full = index_of(ways, ways.len() as int);
    lemma_index(ways, ways.len() as int);
    assert(order(p) =~= chained(p.chains));
    assert forall|i: int| #[trigger] is_indexed(ways, i) implies full.contains_key(
        coordinate_key(ways[i]@.last()),
    ) by {
        let a = p.after[i];
        assert(p.consumed.contains(a));
        assert(is_indexed(ways, a));
        assert(first_key(ways, a) == coordinate_key(ways[i]@.last()));
    }
    assert forall|i: int, j: int|
        #[trigger] is_indexed(ways, i) && #[trigger] is_indexed(ways, j) && i != j implies ways[i]@.last()
        != ways[j]@.last() by {
        if ways[i]@.last() == ways[j]@.last() {
            let a = p.after[i];
            let b = p.after[j];
            assert(p.consumed.contains(a) && p.consumed.contains(b));
            assert(is_indexed(ways, a) && is_indexed(ways, b));
            assert(first_key(ways, a) == first_key(ways, b));
            assert(a == b);
            assert(p.before[a] == i);
            assert(p.before[b] == j);
        }
    }
    assert forall|i: int| is_indexed(ways, i) <==> #[trigger] chained(p.chains).contains(i) by {
        if is_indexed(ways, i) {
            assert(p.consumed.contains(i));
            assert(order(p).contains(i));
        }
        if chained(p.chains).contains(i) {
            assert(order(p).contains(i));
            assert(p.consumed.contains(i));
        }
    }
}

/// The key of a point in the index of fragments.
fn key_for(c: Coordinate) -> (key: u64)
    ensures
        key == coordinate_key(c),
{
    let high: u64 = (c.lon as i64 + 0x8000_0000) as u64;
    let low: u64 = (c.lat as i64 + 0x8000_0000) as u64;
    high * 0x1_0000_0000 + low
}

/// Appends the points of `way` to `points` and widens the span to hold them.
fn append_way(points: &mut Vec<Coordinate>, way: &Vec<Coordinate>, left: &mut i32, right: &mut i32)
    requires
        extent_so_far(old(points)@, *old(left), *old(right)),
    ensures
        final(points)@ == old(points)@ + way@,
        extent_so_far(final(points)@, *final(left), *final(right)),
{
    let mut i: usize = 0;
    while i < way.len()
        invariant
            i <= way@.len(),
            points@ == old(points)@ + way@.take(i as int),
            extent_so_far(points@, *left, *right),
        decreases way@.len() - i,
    {
        let c = way[i];
        let ghost before = points@;
        if c.lon < *left {
            *left = c.lon;
        }
        if c.lon > *right {
            *right = c.lon;
        }
        points.push(c);
        proof {
            assert(way@.take(i + 1) =~= way@.take(i as int).push(c));
            assert(points@ =~= old(points)@ + way@.take(i + 1));
            assert(points@[before.len() as int] == c);
            assert forall|m: int| 0 <= m < points@.len() implies *left <= (
            #[trigger] points@[m]).lon <= *right by {
                if m < before.len() {
                    assert(points@[m] == before[m]);
                }
            }
            assert(exists|m: int| 0 <= m < points@.len() && (#[trigger] points@[m]).lon == *left)
                by {
                if c.lon == *left {
                    assert(points@[before.len() as int].lon == *left);
                } else {
                    let m = choose|m: int|
                        0 <= m < before.len() && (#[trigger] before[m]).lon == *left;
                    assert(points@[m].lon == *left);
                }
            }
            assert(exists|m: int| 0 <= m < points@.len() && (#[trigger] points@[m]).lon == *right)
                by {
                if c.lon == *right {
                    assert(points@[before.len() as int].lon == *right);
                } else {
                    let m = choose|m: int|
                        0 <= m < before.len() && (#[trigger] before[m]).lon == *right;
                    assert(points@[m].lon == *right);
                }
            }
        }
        i += 1;
    }
    proof {
        assert(way@.take(way@.len() as int) =~= way@);
    }
}

impl Coast {
    /// The first point of the coastline.
    pub fn get_first(&self) -> (c: Coordinate)
        requires
            self.coordinates@.len() > 0,
        ensures
            c == self.coordinates@[0],
    {
        self.coordinates[0]
    }

    /// The last point of the coastline.
    pub fn get_last(&self) -> (c: Coordinate)
        requires
            self.coordinates@.len() > 0,
        ensures
            c == self.coordinates@.last(),
    {
        self.coordinates[self.coordinates.len() - 1]
    }
}

impl Coasts {
    /// Joins the fragments `ways` into closed rings. A ring begins with the
    /// first fragment not yet used and takes, as long as it is not closed,
    /// the fragment that begins where it ends. Of two fragments that begin
    /// at the same point only the later one is used.
    ///
    /// Succeeds exactly where `assembles` holds of the fragments; then the
    /// rings use every indexed fragment once.
    ///
    /// Fragments that cannot be joined are malformed input, which ends a
    /// build. This function reports them with an error and leaves it to the
    /// caller to end the build on it.
    pub fn new_from_ways(ways: &Vec<Vec<Coordinate>>) -> (result: Result<Coasts, AssemblyError>)
        ensures
            match result {
                Ok(coasts) => assembles(ways@) && exists|chains: Seq<Seq<int>>| #[trigger]
                    is_assembly(ways@, coasts.actual_coasts@, chains),
                Err(AssemblyError::EmptyWay(i)) => i < ways@.len() && ways@[i as int]@.len() == 0
                    && forall|j: int| 0 <= j < i ==> (#[trigger] ways@[j])@.len() > 0,
                Err(AssemblyError::MissingContinuation(c)) => no_empty_way(ways@) && !assembles(
                    ways@,
                ) && exists|i: int| #[trigger] is_indexed(ways@, i) && ways@[i]@.last() == c,
            },
    {
        let n: usize = ways.len();
        let mut index: HashMap<u64, usize> = HashMap::new();
        let mut i: usize = 0;
        proof {
            broadcast use vstd::std_specs::hash::group_hash_axioms;

            assert(index@ =~= index_of(ways@, 0));
        }
        while i < n
            invariant
                n == ways@.len(),
                i <= n,
                forall|j: int| 0 <= j < i ==> (#[trigger] ways@[j])@.len() > 0,
                index@ == index_of(ways@, i as int),
            decreases n - i,
        {
            if ways[i].len() == 0 {
                return Err(AssemblyError::EmptyWay(i));
            }
            proof {
                broadcast use vstd::std_specs::hash::group_hash_axioms;

            }
            index.insert(key_for(ways[i][0]), i);
            i += 1;
        }
        let mut rings: Vec<Coast> = Vec::new();
        let ghost mut p = initial_progress();
        proof {
            lemma_initial(ways@);
        }
        let mut start: usize = 0;
        while start < n
            invariant
                n == ways@.len(),
                start <= n,
                progress_ok(ways@, p, index@),
                heads_ok(p, start as int),
                p.chain.len() == 0,
                forall|j: int| 0 <= j < start && #[trigger] is_indexed(ways@, j) ==> p.consumed.contains(j),
                rings@.len() == p.chains.len(),
                forall|r: int|
                    0 <= r < rings@.len() ==> is_ring_of(ways@, #[trigger] rings@[r], p.chains[r]),
            decreases n - start,
        {
            proof {
                broadcast use vstd::std_specs::hash::group_hash_axioms;

                lemma_index(ways@, n as int);
            }
            let first_point = ways[start][0];
            let unused: bool = match index.get(&key_for(first_point)) {
                Some(at) => *at == start,
                None => false,
            };
            if unused {
                proof {
                    lemma_started(ways@, p, index@, start as int);
                    p = started(p, start as int);
                }
                index.remove(&key_for(first_point));
                let mut current = Coast {
                    coordinates: Vec::new(),
                    leftmost: i32::MAX,
                    rightmost: i32::MIN,
                };
                append_way(
                    &mut current.coordinates,
                    &ways[start],
                    &mut current.leftmost,
                    &mut current.rightmost,
                );
                proof {
                    assert(chain_points(ways@, p.chain) =~= ways@[start as int]@) by {
                        assert(p.chain.drop_last() =~= Seq::<int>::empty());
                        reveal_with_fuel(chain_points, 2);
                    }
                }
                loop
                    invariant
                        n == ways@.len(),
                        start < n,
                        progress_ok(ways@, p, index@),
                        heads_ok(p, start as int),
                        p.chain.len() > 0,
                        head(p) == start,
                        forall|j: int|
                            0 <= j < start && #[trigger] is_indexed(ways@, j)
                                ==> p.consumed.contains(j),
                        p.consumed.contains(start as int),
                        current.coordinates@ == chain_points(ways@, p.chain),
                        current.coordinates@.len() > 0,
                        current.coordinates@[0] == ways@[start as int]@[0],
                        current.coordinates@.last() == ways@[tail(p)]@.last(),
                        extent_so_far(current.coordinates@, current.leftmost, current.rightmost),
                        rings@.len() == p.chains.len(),
                        forall|r: int|
                            0 <= r < rings@.len() ==> is_ring_of(
                                ways@,
                                #[trigger] rings@[r],
                                p.chains[r],
                            ),
                    ensures
                        current.coordinates@[0] == current.coordinates@.last(),
                    decreases n - p.consumed.len(),
                {
                    let first = current.get_first();
                    let last = current.get_last();
                    if first.lon == last.lon && first.lat == last.lat {
                        break ;
                    }
                    proof {
                        broadcast use vstd::std_specs::hash::group_hash_axioms;

                    }
                    let next: usize = match index.get(&key_for(last)) {
                        Some(at) => *at,
                        None => {
                            proof {
                                lemma_stuck(ways@, p, index@);
                            }
                            return Err(AssemblyError::MissingContinuation(last));
                        },
                    };
                    proof {
                        lemma_index(ways@, n as int);
                        lemma_extended(ways@, p, index@, next as int);
                        lemma_consumed_bounded(ways@, p, index@, next as int);
                        lemma_heads_extended(p, start as int, next as int);
                    }
                    index.remove(&key_for(last));
                    let ghost longer = p.chain.push(next as int);
                    proof {
                        assert(longer.drop_last() =~= p.chain);
                        p = extended(p, next as int);
                    }
                    append_way(
                        &mut current.coordinates,
                        &ways[next],
                        &mut current.leftmost,
                        &mut current.rightmost,
                    );
                }
                proof {
                    lemma_closed(ways@, p, index@);
                    lemma_heads_closed(p, start as int);
                    p = closed(p);
                }
                rings.push(current);
            }
            start += 1;
        }
        proof {
            lemma_done(ways@, p, index@);
        }
        let coasts = Coasts { actual_coasts: rings };
        let result: Result<Coasts, AssemblyError> = Ok(coasts);
        proof {
            assert(is_assembly(ways@, result->Ok_0.actual_coasts@, p.chains));
        }
        result
    }
}

/// As long as an unused fragment is left, fewer fragments are used than
/// there are.
proof fn lemma_consumed_bounded(ways: Seq<Vec<Coordinate>>, p: Progress, index: Map<u64, usize>, j: int)
    requires
        progress_ok(ways, p, index),
        is_indexed(ways, j),
        !p.consumed.contains(j),
    ensures
        p.consumed.finite(),
        p.consumed.len() < ways.len(),
        p.consumed.insert(j).len() == p.consumed.len() + 1,
{
    let all = Set::new(|x: int| 0 <= x < ways.len());
    vstd::set_lib::lemma_int_range(0, ways.len() as int);
    assert(all =~= vstd::set_lib::set_int_range(0, ways.len() as int));
    assert(p.consumed.insert(j).subset_of(all)) by {
        assert forall|x: int| p.consumed.insert(j).contains(x) implies all.contains(x) by {
            if x != j {
                assert(is_indexed(ways, x));
            }
        }
    }
    vstd::set_lib::lemma_len_subset(p.consumed.insert(j), all);
    vstd::set_lib::lemma_len_subset(p.consumed, p.consumed.insert(j));
    assert(p.consumed.insert(j).finite());
    assert(p.consumed.finite()) by {
        assert(p.consumed.subset_of(all));
        vstd::set_lib::lemma_len_subset(p.consumed, all);
    }
}

} // verus!
