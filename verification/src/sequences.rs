//! Facts about sequences that several modules lean on.

use vstd::prelude::*;

verus! {

/// Swapping two elements of a sequence changes nothing about what it holds.
pub proof fn lemma_swap_keeps_multiset<T>(s: Seq<T>, i: int, j: int)
    requires
        0 <= i < s.len(),
        0 <= j < s.len(),
    ensures
        s.update(i, s[j]).update(j, s[i]).to_multiset() == s.to_multiset(),
{
    broadcast use vstd::seq_lib::group_to_multiset_ensures;
    broadcast use vstd::multiset::group_multiset_axioms;

    let t = s.update(i, s[j]);
    assert(t.to_multiset() == s.to_multiset().insert(s[j]).remove(s[i]));
    assert(t.update(j, s[i]).to_multiset() == t.to_multiset().insert(s[i]).remove(t[j]));
    assert(s.to_multiset().count(s[i]) > 0) by {
        assert(s.contains(s[i]));
    }
    assert(s.to_multiset().count(s[j]) > 0) by {
        assert(s.contains(s[j]));
    }
    assert(t.update(j, s[i]).to_multiset() =~= s.to_multiset());
}

} // verus!
