//! Gift cycles: what they are, and which edges they use.
//!
//! A cycle is a sequence of participant indices. Each gives to the one that
//! follows, and the last gives to the first.
use crate::edge_set::reverse;
use vstd::prelude::*;
use vstd::set_lib::{lemma_len_subset, lemma_subset_equality};

verus! {

/// The position that follows position `i` in a cycle of length `len`.
pub open spec fn next_position(len: int, i: int) -> int {
    if i + 1 < len {
        i + 1
    } else {
        0
    }
}

/// The edge that leaves position `i` of `cycle`: from the participant there
/// to the one at the following position.
pub open spec fn edge_at(cycle: Seq<usize>, i: int) -> (usize, usize) {
    (cycle[i], cycle[next_position(cycle.len() as int, i)])
}

/// Whether `cycle` passes through each of `ids` exactly once. `ids` is meant
/// to hold no index twice.
pub open spec fn is_cycle_through(cycle: Seq<usize>, ids: Seq<usize>) -> bool {
    &&& cycle.len() == ids.len()
    &&& cycle.no_duplicates()
    &&& forall|i: int| 0 <= i < cycle.len() ==> ids.contains(#[trigger] cycle[i])
}

/// Whether `cycle` passes through each of the participants `0, 1, ..,
/// n - 1` exactly once.
pub open spec fn is_order_of(cycle: Seq<usize>, n: nat) -> bool {
    &&& cycle.len() == n
    &&& cycle.no_duplicates()
    &&& forall|i: int| 0 <= i < cycle.len() ==> cycle[i] < n
}

/// Whether none of the edges of `cycle`, the closing edge included, is in
/// `forbidden`.
pub open spec fn avoids(cycle: Seq<usize>, forbidden: Set<(usize, usize)>) -> bool {
    forall|i: int| 0 <= i < cycle.len() ==> !forbidden.contains(#[trigger] edge_at(cycle, i))
}

/// Whether no edge of `a` is an edge of `b` or the reverse of one.
pub open spec fn share_no_pair(a: Seq<usize>, b: Seq<usize>) -> bool {
    forall|i: int, j: int|
        0 <= i < a.len() && 0 <= j < b.len() ==> {
            &&& #[trigger] edge_at(a, i) != #[trigger] edge_at(b, j)
            &&& edge_at(a, i) != reverse(edge_at(b, j))
        }
}

/// Whether no two participants give to each other in `cycle`: no edge of
/// `cycle` is the reverse of an edge of `cycle`.
pub open spec fn no_exchange_within(cycle: Seq<usize>) -> bool {
    forall|i: int, j: int|
        0 <= i < cycle.len() && 0 <= j < cycle.len() ==> #[trigger] edge_at(cycle, i) != reverse(
            #[trigger] edge_at(cycle, j),
        )
}

/// The edges of `cycle` together with their reverses.
pub open spec fn pairs_of(cycle: Seq<usize>) -> Set<(usize, usize)> {
    Set::new(
        |edge: (usize, usize)|
            exists|i: int|
                0 <= i < cycle.len() && (edge == #[trigger] edge_at(cycle, i) || edge == reverse(
                    edge_at(cycle, i),
                )),
    )
}

/// `cycle`, started at position `start` instead of position 0.
pub open spec fn rotated(cycle: Seq<usize>, start: int) -> Seq<usize> {
    Seq::new(
        cycle.len(),
        |t: int|
            if start + t < cycle.len() {
                cycle[start + t]
            } else {
                cycle[start + t - cycle.len()]
            },
    )
}

/// Whether `at` is the first position of `cycle` that holds `who`.
pub open spec fn is_first_position(cycle: Seq<usize>, who: usize, at: int) -> bool {
    &&& 0 <= at < cycle.len()
    &&& cycle[at] == who
    &&& forall|j: int| 0 <= j < at ==> cycle[j] != who
}

/// The one that `giver` gives to in `cycle`, if `giver` takes part in it.
pub open spec fn receiver_in(cycle: Seq<usize>, giver: usize) -> Option<usize> {
    if cycle.contains(giver) {
        let at = choose|at: int| is_first_position(cycle, giver, at);
        Some(cycle[next_position(cycle.len() as int, at)])
    } else {
        None
    }
}

/// The first position of `cycle` that holds `who`, if there is one.
pub fn position_of(cycle: &Vec<usize>, who: usize) -> (found: Option<usize>)
    ensures
        match found {
            Some(at) => is_first_position(cycle@, who, at as int),
            None => !cycle@.contains(who),
        },
{
    let mut k: usize = 0;
    while k < cycle.len()
        invariant
            k <= cycle@.len(),
            forall|j: int| 0 <= j < k ==> cycle@[j] != who,
        decreases cycle@.len() - k,
    {
        if cycle[k] == who {
            return Some(k);
        }
        k += 1;
    }
    None
}

/// The one that `giver` gives to in `cycle`, if `giver` takes part in it.
pub fn receiver_of(cycle: &Vec<usize>, giver: usize) -> (receiver: Option<usize>)
    ensures
        receiver == receiver_in(cycle@, giver),
{
    match position_of(cycle, giver) {
        Some(pos) => {
            proof {
                let at = choose|at: int| is_first_position(cycle@, giver, at);
                assert(at == pos);
            }
            Some(cycle[following(cycle.len(), pos)])
        },
        None => None,
    }
}

/// The position that follows `i`, computed.
pub fn following(len: usize, i: usize) -> (next: usize)
    requires
        i < len,
    ensures
        next == next_position(len as int, i as int),
        next < len,
{
    if i + 1 < len {
        i + 1
    } else {
        0
    }
}

/// A sequence without repetitions whose elements all occur in `within` is at
/// most as long as `within`.
pub proof fn lemma_distinct_within(s: Seq<usize>, within: Seq<usize>)
    requires
        s.no_duplicates(),
        forall|i: int| 0 <= i < s.len() ==> within.contains(#[trigger] s[i]),
    ensures
        s.len() <= within.len(),
{
    broadcast use vstd::seq_lib::seq_to_set_is_finite;

    s.unique_seq_to_set();
    within.lemma_cardinality_of_set();
    lemma_len_subset(s.to_set(), within.to_set());
}

/// A cycle through `ids` passes through every element of `ids`.
pub proof fn lemma_cycle_covers(cycle: Seq<usize>, ids: Seq<usize>, value: usize)
    requires
        is_cycle_through(cycle, ids),
        ids.contains(value),
    ensures
        cycle.contains(value),
{
    broadcast use vstd::seq_lib::seq_to_set_is_finite;

    cycle.unique_seq_to_set();
    ids.lemma_cardinality_of_set();
    lemma_len_subset(cycle.to_set(), ids.to_set());
    lemma_subset_equality(cycle.to_set(), ids.to_set());
    assert(ids.to_set().contains(value));
}

/// A round leaves nobody out: a cycle that passes through each of `n`
/// participants exactly once holds every one of them.
pub proof fn lemma_round_covers(cycle: Seq<usize>, n: nat, who: usize)
    requires
        is_order_of(cycle, n),
        who < n,
    ensures
        cycle.contains(who),
{
    let everybody = Seq::new(n, |i: int| i as usize);
    assert(everybody[who as int] == who);
    assert forall|i: int| 0 <= i < cycle.len() implies everybody.contains(#[trigger] cycle[i]) by {
        assert(everybody[cycle[i] as int] == cycle[i]);
    }
    lemma_cycle_covers(cycle, everybody, who);
}

/// In a cycle without repetitions through three or more participants, no
/// two give to each other.
pub proof fn lemma_no_exchange_within(cycle: Seq<usize>)
    requires
        cycle.no_duplicates(),
        cycle.len() >= 3,
    ensures
        no_exchange_within(cycle),
{
    let n = cycle.len() as int;
    assert forall|i: int, j: int| 0 <= i < n && 0 <= j < n implies #[trigger] edge_at(cycle, i)
        != reverse(#[trigger] edge_at(cycle, j)) by {
        if edge_at(cycle, i) == reverse(edge_at(cycle, j)) {
            assert(i == next_position(n, j));
        }
    }
}

/// In a cycle through two participants the two give to each other, and in
/// a cycle through one that one gives to itself.
pub proof fn lemma_exchange_within_small(cycle: Seq<usize>)
    requires
        1 <= cycle.len() <= 2,
    ensures
        !no_exchange_within(cycle),
{
    if cycle.len() == 2 {
        assert(edge_at(cycle, 0) == reverse(edge_at(cycle, 1)));
    } else {
        assert(edge_at(cycle, 0) == reverse(edge_at(cycle, 0)));
    }
}

/// A cycle through `ids` can be started at any of its positions: it stays a
/// cycle through `ids` and uses the same edges.
pub proof fn lemma_rotated(
    cycle: Seq<usize>,
    ids: Seq<usize>,
    forbidden: Set<(usize, usize)>,
    start: int,
)
    requires
        is_cycle_through(cycle, ids),
        avoids(cycle, forbidden),
        0 <= start < cycle.len(),
    ensures
        is_cycle_through(rotated(cycle, start), ids),
        avoids(rotated(cycle, start), forbidden),
        rotated(cycle, start)[0] == cycle[start],
{
    let turned = rotated(cycle, start);
    let n = cycle.len() as int;
    assert forall|i: int| 0 <= i < turned.len() implies !forbidden.contains(
        #[trigger] edge_at(turned, i),
    ) by {
        let at = if start + i < n {
            start + i
        } else {
            start + i - n
        };
        assert(edge_at(turned, i) == edge_at(cycle, at));
    }
}

} // verus!
