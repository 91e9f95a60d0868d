//! Schedules: one cycle for each round, and what the rounds owe each other.
use crate::cycle::{
    avoids, edge_at, is_order_of, no_exchange_within, pairs_of, receiver_in, receiver_of,
    share_no_pair,
};
use crate::edge_set::reverse;
use vstd::prelude::*;

verus! {

/// The rounds of a schedule as sequences.
pub open spec fn views(rounds: Seq<Vec<usize>>) -> Seq<Seq<usize>> {
    Seq::new(rounds.len(), |r: int| rounds[r]@)
}

/// Whether every round passes through each of the `n` participants exactly
/// once.
pub open spec fn all_rounds(rounds: Seq<Seq<usize>>, n: nat) -> bool {
    forall|r: int| 0 <= r < rounds.len() ==> is_order_of(#[trigger] rounds[r], n)
}

/// Whether no round uses an edge of `forbidden`.
pub open spec fn all_avoid(rounds: Seq<Seq<usize>>, forbidden: Set<(usize, usize)>) -> bool {
    forall|r: int| 0 <= r < rounds.len() ==> avoids(#[trigger] rounds[r], forbidden)
}

/// Whether no two different rounds have an edge in common, in the same or
/// in opposite directions.
pub open spec fn all_apart(rounds: Seq<Seq<usize>>) -> bool {
    forall|r1: int, r2: int|
        0 <= r1 < r2 < rounds.len() ==> share_no_pair(#[trigger] rounds[r1], #[trigger] rounds[r2])
}

/// Whether in no round two participants give to each other.
pub open spec fn all_free(rounds: Seq<Seq<usize>>) -> bool {
    forall|r: int| 0 <= r < rounds.len() ==> no_exchange_within(#[trigger] rounds[r])
}

/// Whether nobody gives to themself.
pub open spec fn no_self_gift(rounds: Seq<Seq<usize>>) -> bool {
    forall|r: int, i: int|
        0 <= r < rounds.len() && 0 <= i < rounds[r].len() ==> (#[trigger] edge_at(rounds[r], i)).0
            != edge_at(rounds[r], i).1
}

/// Whether no edge occurs twice in the schedule.
pub open spec fn no_repeated_edge(rounds: Seq<Seq<usize>>) -> bool {
    forall|r1: int, i1: int, r2: int, i2: int|
        0 <= r1 < rounds.len() && 0 <= i1 < rounds[r1].len() && 0 <= r2 < rounds.len() && 0 <= i2
            < rounds[r2].len() && (r1 != r2 || i1 != i2) ==> #[trigger] edge_at(rounds[r1], i1)
            != #[trigger] edge_at(rounds[r2], i2)
}

/// Whether no two participants ever give to each other: no edge of the
/// schedule is the reverse of an edge of the schedule.
pub open spec fn no_mutual_exchange(rounds: Seq<Seq<usize>>) -> bool {
    forall|r1: int, i1: int, r2: int, i2: int|
        0 <= r1 < rounds.len() && 0 <= i1 < rounds[r1].len() && 0 <= r2 < rounds.len() && 0 <= i2
            < rounds[r2].len() ==> #[trigger] edge_at(rounds[r1], i1) != reverse(
            #[trigger] edge_at(rounds[r2], i2),
        )
}

/// The edges that `rounds` have taken: their edges and the reverses of
/// their edges.
pub open spec fn taken_by(rounds: Seq<Seq<usize>>) -> Set<(usize, usize)> {
    Set::new(
        |edge: (usize, usize)|
            exists|r: int| 0 <= r < rounds.len() && pairs_of(#[trigger] rounds[r]).contains(edge),
    )
}

/// Whether `rounds` can stand at the beginning of a schedule for `n`
/// participants under the exclusions `base`.
pub open spec fn is_consistent(rounds: Seq<Seq<usize>>, n: nat, base: Set<(usize, usize)>) -> bool {
    &&& all_rounds(rounds, n)
    &&& all_avoid(rounds, base)
    &&& all_free(rounds)
    &&& all_apart(rounds)
}

/// Whether there is a round that can follow `rounds`: a cycle through all
/// `n` participants in which no two give to each other, and which uses no
/// edge of `base` and none that `rounds` have taken.
pub open spec fn can_extend(rounds: Seq<Seq<usize>>, n: nat, base: Set<(usize, usize)>) -> bool {
    exists|cycle: Seq<usize>|
        is_order_of(cycle, n) && no_exchange_within(cycle) && avoids(
            cycle,
            base.union(taken_by(rounds)),
        )
}

/// Whether `rounds` is a valid schedule for `n` participants under the
/// exclusions `base`.
pub open spec fn is_schedule(rounds: Seq<Seq<usize>>, n: nat, base: Set<(usize, usize)>) -> bool {
    &&& all_rounds(rounds, n)
    &&& all_avoid(rounds, base)
    &&& no_repeated_edge(rounds)
    &&& no_mutual_exchange(rounds)
}

/// Whether `batch` lists, each once, the edges that `after` holds beyond
/// those of `before`.
pub open spec fn batch_ok(
    batch: Seq<(usize, usize)>,
    before: Set<(usize, usize)>,
    after: Set<(usize, usize)>,
) -> bool {
    &&& batch.no_duplicates()
    &&& forall|k: int| 0 <= k < batch.len() ==> !before.contains(#[trigger] batch[k])
    &&& forall|edge: (usize, usize)| #[trigger]
        after.contains(edge) <==> before.contains(edge) || batch.contains(edge)
}

/// No round, nothing taken.
pub proof fn lemma_taken_by_none()
    ensures
        taken_by(Seq::empty()) == Set::<(usize, usize)>::empty(),
{
}

/// One more round takes its own pairs, and nothing else.
pub proof fn lemma_taken_by_push(rounds: Seq<Seq<usize>>, cycle: Seq<usize>)
    ensures
        taken_by(rounds.push(cycle)) == taken_by(rounds).union(pairs_of(cycle)),
{
    let all = rounds.push(cycle);
    assert forall|edge: (usize, usize)|
        taken_by(all).contains(edge) <==> taken_by(rounds).contains(edge) || pairs_of(
            cycle,
        ).contains(edge) by {
        if taken_by(rounds).contains(edge) {
            let r = choose|r: int|
                0 <= r < rounds.len() && pairs_of(#[trigger] rounds[r]).contains(edge);
            assert(pairs_of(all[r]).contains(edge));
        }
        if pairs_of(cycle).contains(edge) {
            assert(pairs_of(all[rounds.len() as int]).contains(edge));
        }
    }
}

/// Rounds that avoid every edge from a participant to itself hold no
/// self-gift.
pub proof fn lemma_no_self_gift(rounds: Seq<Seq<usize>>, n: nat, base: Set<(usize, usize)>)
    requires
        all_rounds(rounds, n),
        all_avoid(rounds, base),
        forall|p: usize| p < n ==> #[trigger] base.contains((p, p)),
    ensures
        no_self_gift(rounds),
{
}

/// In a schedule whose rounds each pass through every participant once, and
/// of which no two share a pair, no edge occurs twice.
pub proof fn lemma_no_repeated_edge(rounds: Seq<Seq<usize>>, n: nat)
    requires
        all_rounds(rounds, n),
        all_apart(rounds),
    ensures
        no_repeated_edge(rounds),
{
}

/// No mutual exchange: in a schedule in no round of which two give to each
/// other, and of which no two rounds share a pair, no edge is the reverse
/// of an edge.
pub proof fn lemma_no_mutual_exchange(rounds: Seq<Seq<usize>>)
    requires
        all_free(rounds),
        all_apart(rounds),
    ensures
        no_mutual_exchange(rounds),
{
}

/// Those that `giver` gives to, round by round. A round that `giver` takes
/// no part in contributes nothing.
pub open spec fn receivers(rounds: Seq<Seq<usize>>, giver: usize) -> Seq<usize>
    decreases rounds.len(),
{
    if rounds.len() == 0 {
        Seq::empty()
    } else {
        let earlier = receivers(rounds.drop_last(), giver);
        match receiver_in(rounds.last(), giver) {
            Some(receiver) => earlier.push(receiver),
            None => earlier,
        }
    }
}

/// Those that `giver` gives to, round by round.
pub fn receivers_of(cycles: &Vec<Vec<usize>>, giver: usize) -> (found: Vec<usize>)
    ensures
        found@ == receivers(views(cycles@), giver),
{
    let ghost rounds = views(cycles@);
    let mut found: Vec<usize> = Vec::new();
    let mut r: usize = 0;
    while r < cycles.len()
        invariant
            r <= cycles@.len(),
            rounds == views(cycles@),
            found@ == receivers(rounds.take(r as int), giver),
        decreases cycles@.len() - r,
    {
        proof {
            let upto = rounds.take(r + 1);
            assert(upto.drop_last() =~= rounds.take(r as int));
        }
        match receiver_of(&cycles[r], giver) {
            Some(receiver) => {
                found.push(receiver);
            },
            None => {},
        }
        r += 1;
    }
    assert(rounds.take(r as int) =~= rounds);
    found
}

} // verus!
