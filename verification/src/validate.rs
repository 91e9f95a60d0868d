//! Checking a schedule against the constraints.
use crate::cycle::{avoids, edge_at, following, is_order_of};
use crate::edge_set::{reverse, EdgeSet};
use crate::schedule::{is_schedule, no_mutual_exchange, no_repeated_edge, views};
use vstd::prelude::*;

verus! {

/// The edges of all rounds.
pub open spec fn edges_of(rounds: Seq<Seq<usize>>) -> Set<(usize, usize)> {
    Set::new(
        |edge: (usize, usize)|
            exists|r: int, i: int|
                0 <= r < rounds.len() && 0 <= i < rounds[r].len() && edge == #[trigger] edge_at(
                    rounds[r],
                    i,
                ),
    )
}

/// The edges that leave the first `i` positions of `cycle`.
pub open spec fn edges_before(cycle: Seq<usize>, i: int) -> Set<(usize, usize)> {
    Set::new(
        |edge: (usize, usize)| exists|j: int| 0 <= j < i && edge == #[trigger] edge_at(cycle, j),
    )
}

/// Whether the schedule made of `rounds` and one more round, `cycle`, holds
/// no edge twice and no edge together with its reverse.
pub open spec fn fits(rounds: Seq<Seq<usize>>, cycle: Seq<usize>) -> bool {
    &&& no_repeated_edge(rounds.push(cycle))
    &&& no_mutual_exchange(rounds.push(cycle))
}

/// Whether `cycle` lists each of `0, 1, .., n - 1` exactly once.
pub fn visits_each_once(cycle: &Vec<usize>, n: usize) -> (ok: bool)
    ensures
        ok == is_order_of(cycle@, n as nat),
{
    if cycle.len() != n {
        return false;
    }
    let mut seen: Vec<bool> = vec![false; n];
    let mut i: usize = 0;
    while i < n
        invariant
            i <= n,
            n == cycle@.len(),
            seen@.len() == n,
            forall|k: int| 0 <= k < i ==> cycle@[k] < n,
            forall|k: int, l: int| 0 <= k < l < i ==> cycle@[k] != cycle@[l],
            forall|v: int|
                0 <= v < n ==> (#[trigger] seen@[v] <==> exists|k: int|
                    0 <= k < i && cycle@[k] == v),
        decreases n - i,
    {
        let v = cycle[i];
        if v >= n {
            return false;
        }
        if seen[v] {
            return false;
        }
        seen[v] = true;
        i += 1;
    }
    true
}

/// Checks one more round against the rounds before it: that it uses no
/// edge of `base`, no edge that is already in `global_edges`, and no edge
/// whose reverse is there or among its own. Its edges are added to
/// `global_edges` on the way.
fn check_round(
    cycle: &Vec<usize>,
    base: &EdgeSet,
    global_edges: &mut EdgeSet,
    Ghost(rounds): Ghost<Seq<Seq<usize>>>,
) -> (ok: bool)
    requires
        cycle@.no_duplicates(),
        no_repeated_edge(rounds),
        no_mutual_exchange(rounds),
        old(global_edges)@ == edges_of(rounds),
    ensures
        ok == (avoids(cycle@, base@) && fits(rounds, cycle@)),
        ok ==> final(global_edges)@ == edges_of(rounds.push(cycle@)),
{
    let len = cycle.len();
    let ghost all = rounds.push(cycle@);
    let ghost last = rounds.len() as int;
    let mut i: usize = 0;
    while i < len
        invariant
            i <= len,
            len == cycle@.len(),
            all == rounds.push(cycle@),
            last == rounds.len(),
            cycle@.no_duplicates(),
            no_repeated_edge(rounds),
            no_mutual_exchange(rounds),
            global_edges@ == edges_of(rounds).union(edges_before(cycle@, i as int)),
            forall|j: int| 0 <= j < i ==> !base@.contains(#[trigger] edge_at(cycle@, j)),
            forall|j: int|
                0 <= j < i ==> !edges_of(rounds).contains(#[trigger] edge_at(cycle@, j)),
            forall|j: int|
                0 <= j < i ==> !global_edges@.contains(reverse(#[trigger] edge_at(cycle@, j))),
        decreases len - i,
    {
        let a = cycle[i];
        let b = cycle[following(len, i)];
        let ghost edge = edge_at(cycle@, i as int);
        if base.contains(&(a, b)) {
            return false;
        }
        if !global_edges.insert((a, b)) {
            proof {
                if edges_of(rounds).contains(edge) {
                    let (r, j) = choose|r: int, j: int|
                        0 <= r < rounds.len() && 0 <= j < rounds[r].len() && edge
                            == #[trigger] edge_at(rounds[r], j);
                    assert(edge_at(all[r], j) == edge_at(all[last], i as int));
                } else {
                    let j = choose|j: int| 0 <= j < i && edge == #[trigger] edge_at(cycle@, j);
                    assert(edge_at(all[last], j) == edge_at(all[last], i as int));
                }
            }
            return false;
        }
        if global_edges.contains(&(b, a)) {
            proof {
                let back = reverse(edge);
                if back == edge {
                    assert(edge_at(all[last], i as int) == reverse(edge_at(all[last], i as int)));
                } else if edges_of(rounds).contains(back) {
                    let (r, j) = choose|r: int, j: int|
                        0 <= r < rounds.len() && 0 <= j < rounds[r].len() && back
                            == #[trigger] edge_at(rounds[r], j);
                    assert(edge_at(all[r], j) == reverse(edge_at(all[last], i as int)));
                } else {
                    let j = choose|j: int| 0 <= j < i && back == #[trigger] edge_at(cycle@, j);
                    assert(edge_at(all[last], j) == reverse(edge_at(all[last], i as int)));
                }
            }
            return false;
        }
        i += 1;
    }
    proof {
        assert(global_edges@ =~= edges_of(all)) by {
            assert forall|other: (usize, usize)|
                edges_of(all).contains(other) <==> edges_of(rounds).contains(other)
                    || edges_before(cycle@, len as int).contains(other) by {
                if edges_of(rounds).contains(other) {
                    let (r, j) = choose|r: int, j: int|
                        0 <= r < rounds.len() && 0 <= j < rounds[r].len() && other
                            == #[trigger] edge_at(rounds[r], j);
                    assert(other == edge_at(all[r], j));
                }
                if edges_before(cycle@, len as int).contains(other) {
                    let j = choose|j: int| 0 <= j < len && other == #[trigger] edge_at(cycle@, j);
                    assert(other == edge_at(all[last], j));
                }
            }
        }
    }
    true
}

/// Whether `found_cycles` is a valid schedule for `n` participants under
/// the exclusions `base`: every round passes through each participant
/// exactly once, no round uses an edge of `base`, no edge occurs twice, and
/// no edge occurs together with its reverse.
pub fn check_schedule(found_cycles: &Vec<Vec<usize>>, n: usize, base: &EdgeSet) -> (valid: bool)
    ensures
        valid == is_schedule(views(found_cycles@), n as nat, base@),
{
    let ghost rounds = views(found_cycles@);
    let mut global_edges = EdgeSet::new();
    let mut r: usize = 0;
    while r < found_cycles.len()
        invariant
            r <= found_cycles@.len(),
            rounds == views(found_cycles@),
            is_schedule(rounds.take(r as int), n as nat, base@),
            global_edges@ == edges_of(rounds.take(r as int)),
        decreases found_cycles@.len() - r,
    {
        let cycle = &found_cycles[r];
        let ghost earlier = rounds.take(r as int);
        proof {
            assert(rounds.take(r + 1) =~= earlier.push(cycle@));
            if is_schedule(rounds, n as nat, base@) {
                assert(rounds.take(r + 1)[r as int] == cycle@);
            }
        }
        if !visits_each_once(cycle, n) {
            return false;
        }
        if !check_round(cycle, base, &mut global_edges, Ghost(earlier)) {
            return false;
        }
        r += 1;
    }
    assert(rounds.take(r as int) =~= rounds);
    true
}

} // verus!
