//! Lexicographic ordering of (key, position) pairs, used to sort records by
//! a key with ties kept in their original order.
use vstd::prelude::*;

verus! {

/// `x` comes no later than `y` in lexicographic order.
pub open spec fn lex_le(x: (i128, usize), y: (i128, usize)) -> bool {
    x.0 < y.0 || (x.0 == y.0 && x.1 <= y.1)
}

/// `s` is in lexicographic order.
pub open spec fn lex_sorted(s: Seq<(i128, usize)>) -> bool {
    forall|i: int, j: int| 0 <= i < j < s.len() ==> lex_le(s[i], s[j])
}

/// `order` holds the keys of `keys` in lexicographic order.
pub open spec fn is_arrangement(order: Seq<(i128, usize)>, keys: Seq<(i128, usize)>) -> bool {
    lex_sorted(order) && order.to_multiset() == keys.to_multiset()
}

/// Relies on `slice::sort_unstable` on pairs of integers, which std orders
/// lexicographically: afterwards the pairs are in that order and are the
/// pairs from before, each as often as before.
#[verifier::external_body]
pub(crate) fn sort_pairs(v: &mut Vec<(i128, usize)>)
    ensures
        is_arrangement(final(v)@, old(v)@),
{
    v.sort_unstable();
}

/// Second components of a sequence of pairs.
pub open spec fn seconds_of(s: Seq<(i128, usize)>) -> Seq<int> {
    s.map_values(|x: (i128, usize)| x.1 as int)
}

/// Every entry of a rearrangement is one of the rearranged entries.
pub proof fn lemma_arrangement_entries(order: Seq<(i128, usize)>, keys: Seq<(i128, usize)>)
    requires
        order.to_multiset() == keys.to_multiset(),
    ensures
        order.len() == keys.len(),
        forall|i: int| 0 <= i < order.len() ==> keys.contains(#[trigger] order[i]),
{
    broadcast use vstd::seq_lib::group_to_multiset_ensures;

    vstd::seq_lib::to_multiset_len(order);
    vstd::seq_lib::to_multiset_len(keys);
    assert forall|i: int| 0 <= i < order.len() implies keys.contains(#[trigger] order[i]) by {
        assert(order.to_multiset().count(order[i]) > 0);
        assert(keys.to_multiset().count(order[i]) > 0);
    }
}

/// A rearrangement of keys `(x, i)` with `i < n` keeps them so.
pub proof fn lemma_arrangement_positions(order: Seq<(i128, usize)>, keys: Seq<(i128, usize)>, n: int)
    requires
        order.to_multiset() == keys.to_multiset(),
        forall|i: int| 0 <= i < keys.len() ==> (#[trigger] keys[i]).1 < n,
    ensures
        order.len() == keys.len(),
        forall|i: int| 0 <= i < order.len() ==> (#[trigger] order[i]).1 < n,
{
    broadcast use vstd::seq_lib::group_to_multiset_ensures;

    vstd::seq_lib::to_multiset_len(order);
    vstd::seq_lib::to_multiset_len(keys);
    assert forall|i: int| 0 <= i < order.len() implies (#[trigger] order[i]).1 < n by {
        assert(order.to_multiset().count(order[i]) > 0);
        assert(keys.to_multiset().count(order[i]) > 0);
        assert(keys.contains(order[i]));
    }
}

} // verus!
