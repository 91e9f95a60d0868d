//! The state of the search for a schedule: the rounds committed so far, the
//! edges that they have taken, and how many attempts each level has used.
use crate::cycle::{
    avoids, edge_at, following, is_order_of, no_exchange_within, pairs_of,
};
use crate::edge_set::{reverse, EdgeSet};
use crate::schedule::{
    batch_ok, is_consistent, lemma_taken_by_none, lemma_taken_by_push, taken_by, views,
};
use vstd::prelude::*;

verus! {

/// Adds `edge` to `taken`, and notes it in `added` if it was new.
fn take_edge(
    taken: &mut EdgeSet,
    added: &mut Vec<(usize, usize)>,
    edge: (usize, usize),
    Ghost(before): Ghost<Set<(usize, usize)>>,
)
    requires
        batch_ok(old(added)@, before, old(taken)@),
    ensures
        batch_ok(final(added)@, before, final(taken)@),
        final(taken)@ == old(taken)@.insert(edge),
{
    if taken.insert(edge) {
        added.push(edge);
        proof {
            let batch = old(added)@;
            assert forall|other: (usize, usize)| #[trigger]
                taken@.contains(other) <==> before.contains(other) || added@.contains(
                    other,
                ) by {
                if batch.contains(other) {
                    let k = choose|k: int| 0 <= k < batch.len() && batch[k] == other;
                    assert(added@[k] == other);
                }
                if other == edge {
                    assert(added@[batch.len() as int] == edge);
                }
            }
        }
    } else {
        assert(taken@ =~= old(taken)@);
    }
}

/// Adds each edge of `cycle` and its reverse to `taken`. What comes back
/// lists the edges that were new.
pub(crate) fn take_pairs(taken: &mut EdgeSet, cycle: &Vec<usize>) -> (added: Vec<(usize, usize)>)
    ensures
        batch_ok(added@, old(taken)@, final(taken)@),
        final(taken)@ == old(taken)@.union(pairs_of(cycle@)),
{
    let ghost before = taken@;
    let mut added_in_this_step: Vec<(usize, usize)> = Vec::new();
    let len = cycle.len();
    let mut i: usize = 0;
    while i < len
        invariant
            i <= len,
            len == cycle@.len(),
            batch_ok(added_in_this_step@, before, taken@),
            forall|edge: (usize, usize)| #[trigger]
                taken@.contains(edge) <==> before.contains(edge) || exists|j: int|
                    0 <= j < i && (edge == #[trigger] edge_at(cycle@, j) || edge == reverse(
                        edge_at(cycle@, j),
                    )),
        decreases len - i,
    {
        let a = cycle[i];
        let b = cycle[following(len, i)];
        take_edge(taken, &mut added_in_this_step, (a, b), Ghost(before));
        take_edge(taken, &mut added_in_this_step, (b, a), Ghost(before));
        proof {
            assert((a, b) == edge_at(cycle@, i as int));
        }
        i += 1;
    }
    added_in_this_step
}

/// Takes the edges of `batch` out of `taken` again, the last first.
pub(crate) fn release(
    taken: &mut EdgeSet,
    batch: Vec<(usize, usize)>,
    Ghost(before): Ghost<Set<(usize, usize)>>,
)
    requires
        batch_ok(batch@, before, old(taken)@),
    ensures
        final(taken)@ == before,
{
    let mut edges_to_remove = batch;
    while edges_to_remove.len() > 0
        invariant
            batch_ok(edges_to_remove@, before, taken@),
        decreases edges_to_remove@.len(),
    {
        let ghost listed = edges_to_remove@;
        let edge = edges_to_remove.pop().unwrap();
        taken.remove(&edge);
        proof {
            assert forall|other: (usize, usize)| #[trigger]
                taken@.contains(other) <==> before.contains(other) || edges_to_remove@.contains(
                    other,
                ) by {
                if listed.contains(other) && other != edge {
                    let k = choose|k: int| 0 <= k < listed.len() && listed[k] == other;
                    assert(edges_to_remove@[k] == other);
                }
            }
        }
    }
}

/// The rounds committed so far, with what is needed to take the last one
/// back.
pub(crate) struct ScheduleSearch {
    found_cycles: Vec<Vec<usize>>,
    exclusions: EdgeSet,
    added_edges_history: Vec<Vec<(usize, usize)>>,
    attempts_stack: Vec<usize>,
    attempts_per_level: usize,
}

impl ScheduleSearch {
    /// The rounds committed so far.
    pub(crate) closed spec fn rounds(&self) -> Seq<Seq<usize>> {
        views(self.found_cycles@)
    }

    /// The working exclusion set.
    pub(crate) closed spec fn working(&self) -> Set<(usize, usize)> {
        self.exclusions@
    }

    /// How many attempts a level may make.
    pub(crate) closed spec fn allowance(&self) -> nat {
        self.attempts_per_level as nat
    }

    /// How many attempts each level has left.
    pub(crate) closed spec fn budgets(&self) -> Seq<nat> {
        Seq::new(
            self.attempts_stack@.len(),
            |k: int| (self.attempts_per_level - self.attempts_stack@[k]) as nat,
        )
    }

    /// The bookkeeping: one attempt counter for each level, and for each
    /// round the batch of edges that it added to those that the rounds
    /// before it had taken.
    pub(crate) closed spec fn wf(&self) -> bool {
        &&& self.added_edges_history@.len() == self.found_cycles@.len()
        &&& self.attempts_stack@.len() == self.found_cycles@.len() + 1
        &&& forall|k: int|
            0 <= k < self.attempts_stack@.len() ==> #[trigger] self.attempts_stack@[k]
                <= self.attempts_per_level
        &&& forall|r: int|
            0 <= r < self.found_cycles@.len() ==> batch_ok(
                (#[trigger] self.added_edges_history@[r])@,
                taken_by(self.rounds().take(r)),
                taken_by(self.rounds().take(r + 1)),
            )
    }

    /// What holds of the state between any two moves of the search: the
    /// rounds committed so far can stand at the beginning of a schedule,
    /// and the working exclusion set holds exactly what they have taken.
    pub(crate) open spec fn inv(&self, n: nat, base: Set<(usize, usize)>) -> bool {
        &&& self.wf()
        &&& self.budgets().len() == self.rounds().len() + 1
        &&& forall|k: int|
            0 <= k < self.budgets().len() ==> #[trigger] self.budgets()[k] <= self.allowance()
        &&& self.working() == taken_by(self.rounds())
        &&& is_consistent(self.rounds(), n, base)
    }

    /// The state at the start: no round, no edge taken, no attempt made.
    pub(crate) fn new(
        attempts_per_level: usize,
        Ghost(n): Ghost<nat>,
        Ghost(base): Ghost<Set<(usize, usize)>>,
    ) -> (search: Self)
        ensures
            search.inv(n, base),
            search.rounds().len() == 0,
            search.allowance() == attempts_per_level,
            search.budgets() == seq![attempts_per_level as nat],
    {
        let exclusions = EdgeSet::new();
        let mut attempts_stack: Vec<usize> = Vec::new();
        attempts_stack.push(0);
        let search = ScheduleSearch {
            found_cycles: Vec::new(),
            exclusions,
            added_edges_history: Vec::new(),
            attempts_stack,
            attempts_per_level,
        };
        proof {
            assert(search.rounds() =~= Seq::empty());
            lemma_taken_by_none();
        }
        search
    }

    /// The level that the search is at: the number of rounds committed.
    pub(crate) fn level(&self) -> (level: usize)
        ensures
            level == self.rounds().len(),
    {
        self.found_cycles.len()
    }

    /// The working exclusion set.
    pub(crate) fn exclusions(&self) -> (taken: &EdgeSet)
        ensures
            taken@ == self.working(),
    {
        &self.exclusions
    }

    /// Spends one attempt at the current level, if one is left there.
    pub(crate) fn spend_attempt(
        &mut self,
        Ghost(n): Ghost<nat>,
        Ghost(base): Ghost<Set<(usize, usize)>>,
    ) -> (spent: bool)
        requires
            old(self).inv(n, base),
        ensures
            final(self).inv(n, base),
            final(self).rounds() == old(self).rounds(),
            final(self).allowance() == old(self).allowance(),
            spent == (old(self).budgets().last() > 0),
            spent ==> final(self).budgets() == old(self).budgets().update(
                old(self).budgets().len() - 1,
                (old(self).budgets().last() - 1) as nat,
            ),
            !spent ==> final(self).budgets() == old(self).budgets(),
    {
        let current_level = self.found_cycles.len();
        let used = self.attempts_stack[current_level];
        if used < self.attempts_per_level {
            self.attempts_stack[current_level] = used + 1;
            assert(self.budgets() =~= old(self).budgets().update(
                old(self).budgets().len() - 1,
                (old(self).budgets().last() - 1) as nat,
            ));
            true
        } else {
            false
        }
    }

    /// Commits `cycle` as the next round.
    pub(crate) fn commit(
        &mut self,
        cycle: Vec<usize>,
        Ghost(n): Ghost<nat>,
        Ghost(base): Ghost<Set<(usize, usize)>>,
    )
        requires
            old(self).inv(n, base),
            is_order_of(cycle@, n),
            no_exchange_within(cycle@),
            avoids(cycle@, base.union(old(self).working())),
        ensures
            final(self).inv(n, base),
            final(self).rounds() == old(self).rounds().push(cycle@),
            final(self).allowance() == old(self).allowance(),
            final(self).budgets() == old(self).budgets().push(old(self).allowance()),
    {
        let ghost rounds_before = self.rounds();
        let ghost level = self.found_cycles@.len() as int;
        let added_in_this_step = take_pairs(&mut self.exclusions, &cycle);
        proof {
            lemma_taken_by_push(rounds_before, cycle@);
        }
        self.found_cycles.push(cycle);
        self.added_edges_history.push(added_in_this_step);
        self.attempts_stack.push(0);
        proof {
            let rounds = self.rounds();
            assert(rounds =~= rounds_before.push(cycle@));
            assert forall|r: int| 0 <= r < self.found_cycles@.len() implies batch_ok(
                (#[trigger] self.added_edges_history@[r])@,
                taken_by(rounds.take(r)),
                taken_by(rounds.take(r + 1)),
            ) by {
                if r < level {
                    assert(rounds.take(r + 1) =~= rounds_before.take(r + 1));
                } else {
                    assert(rounds.take(r + 1) =~= rounds);
                }
            }
        }
    }

    /// Takes the last committed round back, with the edges it had taken.
    pub(crate) fn backtrack(
        &mut self,
        Ghost(n): Ghost<nat>,
        Ghost(base): Ghost<Set<(usize, usize)>>,
    )
        requires
            old(self).inv(n, base),
            old(self).rounds().len() > 0,
        ensures
            final(self).inv(n, base),
            final(self).rounds() == old(self).rounds().drop_last(),
            final(self).allowance() == old(self).allowance(),
            final(self).budgets() == old(self).budgets().drop_last(),
    {
        let ghost rounds_before = self.rounds();
        let ghost level = self.found_cycles@.len() as int;
        let ghost before = taken_by(rounds_before.take(level - 1));
        self.attempts_stack.pop();
        self.found_cycles.pop();
        match self.added_edges_history.pop() {
            Some(edges_to_remove) => {
                proof {
                    assert(rounds_before.take(level) =~= rounds_before);
                }
                release(&mut self.exclusions, edges_to_remove, Ghost(before));
            },
            None => {},
        }
        proof {
            let rounds = self.rounds();
            assert(rounds =~= rounds_before.drop_last());
            assert forall|r: int| 0 <= r < self.found_cycles@.len() implies batch_ok(
                (#[trigger] self.added_edges_history@[r])@,
                taken_by(rounds.take(r)),
                taken_by(rounds.take(r + 1)),
            ) by {
                assert(rounds.take(r + 1) =~= rounds_before.take(r + 1));
            }
        }
    }

    /// Hands the committed rounds out.
    pub(crate) fn into_schedule(self) -> (schedule: Vec<Vec<usize>>)
        ensures
            views(schedule@) == self.rounds(),
    {
        self.found_cycles
    }
}

} // verus!
