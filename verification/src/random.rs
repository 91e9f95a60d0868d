//! The one source of randomness: reordering a list of indices.
use crate::cycle::is_order_of;
use rand::seq::SliceRandom;
use vstd::prelude::*;

verus! {

/// Reorders `items` in place at random.
///
/// Trusted: the body calls `rand::seq::SliceRandom::shuffle` on the vector's
/// slice with the thread-local generator `rand::rng()`. That function only
/// ever swaps two elements of the slice, so the contract claims that the
/// vector afterwards holds the same elements as before, each as often as
/// before. Nothing is claimed about their order.
#[verifier::external_body]
pub(crate) fn shuffle(items: &mut Vec<usize>)
    ensures
        final(items)@.to_multiset() == old(items)@.to_multiset(),
{
    items.shuffle(&mut rand::rng());
}

/// The sequence `0, 1, .., n - 1`.
pub open spec fn identity_order(n: nat) -> Seq<usize> {
    Seq::new(n, |i: int| i as usize)
}

/// A sequence that holds the same elements as `0, 1, .., n - 1`, each as
/// often, lists each of them exactly once, and so contains every one of them.
pub proof fn lemma_rearranged_identity(order: Seq<usize>, n: nat)
    requires
        n <= usize::MAX,
        order.to_multiset() == identity_order(n).to_multiset(),
    ensures
        is_order_of(order, n),
        forall|v: usize| v < n ==> order.contains(v),
{
    let id = identity_order(n);
    broadcast use vstd::seq_lib::group_to_multiset_ensures;
    assert(order.to_multiset().len() == order.len());
    id.lemma_multiset_has_no_duplicates();
    order.lemma_multiset_has_no_duplicates_conv();
    assert forall|i: int| 0 <= i < order.len() implies order[i] < n by {
        assert(id.to_multiset().count(order[i]) > 0);
    }
    assert forall|v: usize| v < n implies order.contains(v) by {
        assert(id[v as int] == v);
        assert(order.to_multiset().count(v) > 0);
    }
}

/// The indices `0, 1, .., n - 1` in this order.
pub fn ordered(n: usize) -> (order: Vec<usize>)
    ensures
        order@ == identity_order(n as nat),
{
    let mut order: Vec<usize> = Vec::new();
    let mut i: usize = 0;
    while i < n
        invariant
            i <= n,
            order@ =~= identity_order(i as nat),
        decreases n - i,
    {
        order.push(i);
        i += 1;
    }
    order
}

/// The indices `0, 1, .., n - 1` in a random order.
pub fn random_order(n: usize) -> (order: Vec<usize>)
    ensures
        is_order_of(order@, n as nat),
        forall|v: usize| v < n ==> order@.contains(v),
{
    let mut order = ordered(n);
    shuffle(&mut order);
    proof {
        lemma_rearranged_identity(order@, n as nat);
    }
    order
}

} // verus!
