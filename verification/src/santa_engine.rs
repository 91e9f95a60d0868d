//! The engine: the exclusion model, the cycle finder and the schedule search.
use crate::budget::{lemma_descend, lemma_retreat, lemma_spend, potential};
use crate::config::{lemma_resolved_targets_in_range, resolved_targets, Config};
use crate::cycle::{
    avoids, edge_at, is_cycle_through, is_order_of, lemma_exchange_within_small,
    lemma_no_exchange_within, no_exchange_within,
};
use crate::edge_set::EdgeSet;
use crate::goals::{
    is_goal, lemma_closing_is_dead_end, lemma_forbidden_is_dead_end, lemma_none_when_exhausted,
    lemma_repeat_is_dead_end,
};
use crate::path_search::PathSearch;
use crate::random::{identity_order, lemma_rearranged_identity, ordered, random_order, shuffle};
use crate::schedule::{
    all_avoid, all_rounds, can_extend, is_consistent, is_schedule,
    lemma_no_mutual_exchange, lemma_no_repeated_edge, lemma_no_self_gift, no_mutual_exchange,
    no_repeated_edge, no_self_gift, taken_by, views,
};
use crate::schedule_search::ScheduleSearch;
use crate::validate::check_schedule;
use crate::SOLVER_LOOPS;
use vstd::prelude::*;

verus! {

/// A participant, with the previous period's receivers resolved to indices.
pub struct Participant {
    id: usize,
    pub name: String,
    family: usize,
    last_year_ids: Vec<usize>,
}

impl Participant {
    /// The participant's index in the engine's list.
    pub closed spec fn id(&self) -> usize {
        self.id
    }

    /// The participant's display name.
    pub closed spec fn name(&self) -> Seq<char> {
        self.name@
    }

    /// The participant's family.
    pub closed spec fn family(&self) -> usize {
        self.family
    }

    /// The indices of those the participant gave to in the previous period.
    pub closed spec fn last_year_ids(&self) -> Seq<usize> {
        self.last_year_ids@
    }
}

/// The participants of a draw, the edges that no round may use, and the
/// number of rounds wanted.
pub struct SantaEngine {
    pub participants: Vec<Participant>,
    base_exclusions: EdgeSet,
    n_cycles: usize,
}

/// Whether `value` occurs in `list`.
fn holds(list: &Vec<usize>, value: usize) -> (found: bool)
    ensures
        found == list@.contains(value),
{
    let mut k: usize = 0;
    while k < list.len()
        invariant
            k <= list@.len(),
            forall|j: int| 0 <= j < k ==> list@[j] != value,
        decreases list@.len() - k,
    {
        if list[k] == value {
            return true;
        }
        k += 1;
    }
    false
}

impl SantaEngine {
    /// The participants, in the order of their indices.
    pub closed spec fn participants(&self) -> Seq<Participant> {
        self.participants@
    }

    /// The base exclusion set: the edges that no round may use, whatever
    /// the other rounds hold.
    pub closed spec fn base_exclusions(&self) -> Set<(usize, usize)> {
        self.base_exclusions@
    }

    /// The number of rounds that a schedule must have.
    pub closed spec fn n_cycles(&self) -> usize {
        self.n_cycles
    }

    /// The exclusion rule: `giver` may never give to `receiver` if they are
    /// the same participant, if they belong to one family, or if `giver` gave
    /// to `receiver` in the previous period.
    pub open spec fn excludes(&self, giver: usize, receiver: usize) -> bool {
        &&& giver < self.participants().len()
        &&& receiver < self.participants().len()
        &&& {
            ||| giver == receiver
            ||| self.participants()[giver as int].family()
                == self.participants()[receiver as int].family()
            ||| self.participants()[giver as int].last_year_ids().contains(receiver)
        }
    }

    /// Well-formedness: each participant is numbered by its place in the
    /// list, previous receivers are participants, and the base exclusion
    /// set holds exactly the edges that the exclusion rule names.
    pub open spec fn wf(&self) -> bool {
        &&& forall|i: int|
            0 <= i < self.participants().len() ==> (#[trigger] self.participants()[i]).id() == i
        &&& forall|i: int, k: int|
            0 <= i < self.participants().len() && 0 <= k
                < self.participants()[i].last_year_ids().len()
                ==> #[trigger] self.participants()[i].last_year_ids()[k]
                < self.participants().len()
        &&& forall|giver: usize, receiver: usize|
            #[trigger] self.base_exclusions().contains((giver, receiver)) <==> self.excludes(
                giver,
                receiver,
            )
    }

    /// Builds the engine for a draw. Names of previous receivers that no
    /// participant bears are left out.
    pub fn new(config: &Config) -> (engine: Self)
        ensures
            engine.wf(),
            engine.n_cycles() == config.n_gifts,
            engine.participants().len() == config.participants@.len(),
            forall|i: int|
                0 <= i < config.participants@.len() ==> {
                    &&& (#[trigger] engine.participants()[i]).name()
                        == config.participants@[i].name@
                    &&& engine.participants()[i].family() == config.participants@[i].family
                    &&& engine.participants()[i].last_year_ids() == resolved_targets(
                        config.participants@,
                        config.participants@[i].last_year_targets@,
                    )
                },
            forall|p: usize|
                p < config.participants@.len() ==> #[trigger] engine.base_exclusions().contains(
                    (p, p),
                ),
            forall|p: usize, q: usize|
                p < config.participants@.len() && q < config.participants@.len()
                    && config.participants@[p as int].family
                    == config.participants@[q as int].family
                    ==> #[trigger] engine.base_exclusions().contains((p, q))
                    && engine.base_exclusions().contains((q, p)),
    {
        let n = config.participants.len();
        let mut participants: Vec<Participant> = Vec::new();
        let mut i: usize = 0;
        while i < n
            invariant
                n == config.participants@.len(),
                i <= n,
                participants@.len() == i,
                forall|k: int|
                    0 <= k < i ==> {
                        &&& (#[trigger] participants@[k]).id == k
                        &&& participants@[k].name@ == config.participants@[k].name@
                        &&& participants@[k].family == config.participants@[k].family
                        &&& participants@[k].last_year_ids@ == resolved_targets(
                            config.participants@,
                            config.participants@[k].last_year_targets@,
                        )
                    },
            decreases n - i,
        {
            let raw = &config.participants[i];
            participants.push(
                Participant {
                    id: i,
                    name: raw.name.clone(),
                    family: raw.family,
                    last_year_ids: config.indices_of(&raw.last_year_targets),
                },
            );
            i += 1;
        }

        let mut base_exclusions = EdgeSet::new();
        let mut p: usize = 0;
        while p < n
            invariant
                n == participants@.len(),
                n == config.participants@.len(),
                p <= n,
                forall|k: int| 0 <= k < n ==> (#[trigger] participants@[k]).id == k,
                forall|k: int|
                    0 <= k < n ==> {
                        &&& (#[trigger] participants@[k]).name@ == config.participants@[k].name@
                        &&& participants@[k].family == config.participants@[k].family
                        &&& participants@[k].last_year_ids@ == resolved_targets(
                            config.participants@,
                            config.participants@[k].last_year_targets@,
                        )
                    },
                forall|a: usize, b: usize|
                    #[trigger] base_exclusions@.contains((a, b)) <==> a < p && Self::rule(
                        participants@,
                        a,
                        b,
                    ),
            decreases n - p,
        {
            let mut t: usize = 0;
            while t < n
                invariant
                    n == participants@.len(),
                    p < n,
                    t <= n,
                    forall|k: int| 0 <= k < n ==> (#[trigger] participants@[k]).id == k,
                    forall|a: usize, b: usize|
                        #[trigger] base_exclusions@.contains((a, b)) <==> (a < p || (a == p && b
                            < t)) && Self::rule(participants@, a, b),
                decreases n - t,
            {
                let giver = &participants[p];
                let receiver = &participants[t];
                if giver.id == receiver.id || giver.family == receiver.family || holds(
                    &giver.last_year_ids,
                    receiver.id,
                ) {
                    base_exclusions.insert((giver.id, receiver.id));
                }
                t += 1;
            }
            p += 1;
        }
        proof {
            assert forall|i: int, k: int|
                0 <= i < participants@.len() && 0 <= k
                    < participants@[i].last_year_ids@.len() implies
                    #[trigger] participants@[i].last_year_ids@[k]
                < participants@.len() by {
                lemma_resolved_targets_in_range(
                    config.participants@,
                    config.participants@[i].last_year_targets@,
                );
            }
        }
        SantaEngine { participants, base_exclusions, n_cycles: config.n_gifts }
    }

    /// The exclusion rule over a list of participants.
    spec fn rule(people: Seq<Participant>, giver: usize, receiver: usize) -> bool {
        &&& giver < people.len()
        &&& receiver < people.len()
        &&& {
            ||| giver == receiver
            ||| people[giver as int].family == people[receiver as int].family
            ||| people[giver as int].last_year_ids@.contains(receiver)
        }
    }

    /// The edges that a round may not use when the earlier rounds have
    /// taken `extra`: those of the base exclusion set and those of `extra`.
    pub open spec fn forbidden(&self, extra: Set<(usize, usize)>) -> Set<(usize, usize)> {
        self.base_exclusions().union(extra)
    }

    /// Searches for one cycle through all of `ids` that uses no edge of the
    /// base exclusion set and none of `extra`.
    ///
    /// The search goes depth first from the first element of `ids`, and
    /// tries the candidates for each next element in a random order. It
    /// finds a cycle whenever there is one; which one it finds is left to
    /// chance.
    pub fn find_path_iterative(
        &self,
        ids: &Vec<usize>,
        extra: &EdgeSet,
    ) -> (found: Option<Vec<usize>>)
        requires
            self.wf(),
            ids@.len() > 0,
            ids@.no_duplicates(),
            forall|i: int| 0 <= i < ids@.len() ==> ids@[i] < self.participants().len(),
        ensures
            match found {
                Some(cycle) => is_goal(cycle@, ids@, self.forbidden(extra@)),
                None => forall|cycle: Seq<usize>|
                    !(is_cycle_through(cycle, ids@) && avoids(cycle, self.forbidden(extra@))),
            },
    {
        let n = ids.len();
        let ghost forbidden = self.forbidden(extra@);
        let first_choices = random_order(n);
        let mut search = PathSearch::start(ids, first_choices, Ghost(forbidden));

        while !search.is_exhausted()
            invariant
                self.wf(),
                n == ids@.len(),
                forbidden == self.forbidden(extra@),
                search.inv(ids@, forbidden),
            decreases search.measure(n as nat),
        {
            match search.candidate(Ghost(ids@)) {
                Some((last, i)) => {
                    let next = ids[i];
                    if !search.is_used(Ghost(ids@), i) && !self.base_exclusions.contains(
                        &(last, next),
                    ) && !extra.contains(&(last, next)) {
                        if search.len() == n - 1 {
                            let pre = search.first();
                            if !self.base_exclusions.contains(&(next, pre)) && !extra.contains(
                                &(next, pre),
                            ) {
                                return Some(search.finish(ids, Ghost(forbidden)));
                            }
                            proof {
                                lemma_closing_is_dead_end(search.path(), ids@, forbidden, next);
                            }
                            search.skip(Ghost(ids@), Ghost(forbidden));
                        } else {
                            let next_choices = random_order(n);
                            search.step(ids, next_choices, Ghost(forbidden));
                        }
                    } else {
                        proof {
                            if search.path().contains(next) {
                                lemma_repeat_is_dead_end(search.path(), ids@, forbidden, next);
                            } else {
                                lemma_forbidden_is_dead_end(search.path(), ids@, forbidden, next);
                            }
                        }
                        search.skip(Ghost(ids@), Ghost(forbidden));
                    }
                },
                None => {
                    search.retreat(ids, Ghost(forbidden));
                },
            }
        }

        proof {
            lemma_none_when_exhausted(search.path(), ids@, forbidden, search.frames());
        }
        None
    }

    /// Whether a first round exists: a cycle through all participants in
    /// which no two give to each other, and which uses no edge of the base
    /// exclusion set.
    pub open spec fn round_exists(&self) -> bool {
        exists|cycle: Seq<usize>|
            is_order_of(cycle, self.participants().len()) && no_exchange_within(cycle) && avoids(
                cycle,
                self.base_exclusions(),
            )
    }

    /// Whether the search cannot get stuck: whatever rounds it has
    /// committed, fewer than are wanted, there is a round that can follow
    /// them.
    pub open spec fn never_stuck(&self) -> bool {
        forall|rounds: Seq<Seq<usize>>|
            rounds.len() < self.n_cycles() && #[trigger] is_consistent(
                rounds,
                self.participants().len(),
                self.base_exclusions(),
            ) ==> can_extend(rounds, self.participants().len(), self.base_exclusions())
    }

    /// Searches for a schedule of `n_cycles` rounds, with `SOLVER_LOOPS`
    /// attempts for each level.
    ///
    /// Each level of the search stands for one round. A level tries to find
    /// a cycle that avoids the base exclusion set and the edges that the
    /// rounds before it have taken, in either direction. When a level has
    /// used its attempts up, the round before it is taken back and that
    /// level goes on with the attempts it has left; when the first level has
    /// used its attempts up, the search fails.
    ///
    /// The search succeeds wherever it cannot get stuck, and fails wherever
    /// there is not even a first round. In between, where some choices of
    /// rounds can be followed up and others cannot, the outcome is left to
    /// chance: a failure then does not show that there is no schedule.
    /// With two participants there is no round, since the two would give to
    /// each other: the search fails at once.
    pub fn generate(&self) -> (schedule: Option<Vec<Vec<usize>>>)
        requires
            self.wf(),
            self.n_cycles() == 0 || self.participants().len() > 0,
        ensures
            match schedule {
                Some(rounds) => self.is_outcome(views(rounds@)),
                None => self.n_cycles() > 0,
            },
            self.n_cycles() > 0 && !self.round_exists() ==> schedule is None,
            self.n_cycles() > 0 && self.participants().len() == 2 ==> schedule is None,
            self.n_cycles() == 1 && self.round_exists() ==> schedule is Some,
            self.never_stuck() ==> schedule is Some,
    {
        self.generate_with_budget(SOLVER_LOOPS)
    }

    /// What holds of every schedule that the search returns: it has as
    /// many rounds as are wanted, every round passes through each
    /// participant exactly once, nobody gives to themself, no round uses an
    /// edge of the base exclusion set, no edge occurs twice, and no two
    /// participants ever give to each other, in one round or in two.
    pub open spec fn is_outcome(&self, rounds: Seq<Seq<usize>>) -> bool {
        &&& rounds.len() == self.n_cycles()
        &&& all_rounds(rounds, self.participants().len())
        &&& all_avoid(rounds, self.base_exclusions())
        &&& no_self_gift(rounds)
        &&& no_repeated_edge(rounds)
        &&& no_mutual_exchange(rounds)
        &&& is_schedule(rounds, self.participants().len(), self.base_exclusions())
    }

    /// Searches for a schedule of `n_cycles` rounds, with
    /// `attempts_per_level` attempts for each level.
    pub fn generate_with_budget(
        &self,
        attempts_per_level: usize,
    ) -> (schedule: Option<Vec<Vec<usize>>>)
        requires
            self.wf(),
            self.n_cycles() == 0 || self.participants().len() > 0,
        ensures
            match schedule {
                Some(rounds) => self.is_outcome(views(rounds@)),
                None => self.n_cycles() > 0,
            },
            self.n_cycles() > 0 && (attempts_per_level == 0 || !self.round_exists())
                ==> schedule is None,
            self.n_cycles() > 0 && self.participants().len() == 2 ==> schedule is None,
            attempts_per_level > 0 && self.n_cycles() == 1 && self.round_exists()
                ==> schedule is Some,
            attempts_per_level > 0 && self.never_stuck() ==> schedule is Some,
    {
        let n = self.participants.len();
        let ghost base = self.base_exclusions();
        let ghost depth = self.n_cycles as nat;
        let ghost allowance = attempts_per_level as nat;
        let ghost weight_base = (attempts_per_level + 2) as nat;
        if n == 2 && self.n_cycles > 0 {
            // The only round through two has them give to each other.
            proof {
                assert forall|cycle: Seq<usize>| is_order_of(cycle, 2) implies !no_exchange_within(
                    cycle,
                ) by {
                    lemma_exchange_within_small(cycle);
                }
                assert(is_consistent(Seq::<Seq<usize>>::empty(), n as nat, base));
            }
            return None;
        }
        let mut search = ScheduleSearch::new(attempts_per_level, Ghost(n as nat), Ghost(base));
        let mut ids = ordered(n);

        while search.level() < self.n_cycles
            invariant
                self.wf(),
                n == self.participants().len(),
                base == self.base_exclusions(),
                depth == self.n_cycles(),
                allowance == attempts_per_level,
                weight_base == allowance + 2,
                self.n_cycles() == 0 || n > 0,
                self.n_cycles() == 0 || n != 2,
                search.inv(n as nat, base),
                search.allowance() == allowance,
                search.rounds().len() <= self.n_cycles(),
                ids@.to_multiset() == identity_order(n as nat).to_multiset(),
                allowance == 0 || !self.round_exists() ==> search.rounds().len() == 0,
                self.n_cycles() == 1 && self.round_exists() && search.rounds().len() == 0
                    ==> search.budgets()[0] == allowance,
                self.never_stuck() ==> search.budgets().last() == allowance,
            decreases potential(search.budgets(), weight_base, depth),
        {
            let ghost budgets_before = search.budgets();
            let ghost left = (budgets_before.last() - 1) as nat;
            if search.spend_attempt(Ghost(n as nat), Ghost(base)) {
                shuffle(&mut ids);
                proof {
                    lemma_rearranged_identity(ids@, n as nat);
                }
                match self.find_path_iterative(&ids, search.exclusions()) {
                    Some(cycle) => {
                        proof {
                            assert(avoids(cycle@, base)) by {
                                assert forall|i: int| 0 <= i < cycle@.len() implies !base.contains(
                                    #[trigger] edge_at(cycle@, i),
                                ) by {
                                    assert(!self.forbidden(search.working()).contains(
                                        edge_at(cycle@, i),
                                    ));
                                }
                            }
                            if n >= 3 {
                                lemma_no_exchange_within(cycle@);
                            } else {
                                assert(edge_at(cycle@, 0) == (cycle@[0], cycle@[0]));
                            }
                            lemma_descend(budgets_before, weight_base, depth, left, allowance);
                        }
                        search.commit(cycle, Ghost(n as nat), Ghost(base));
                    },
                    None => {
                        proof {
                            lemma_spend(budgets_before, weight_base, depth, left);
                            if self.never_stuck() {
                                let cycle = choose|cycle: Seq<usize>|
                                    is_order_of(cycle, n as nat) && no_exchange_within(cycle)
                                        && avoids(cycle, base.union(taken_by(search.rounds())));
                                assert(is_cycle_through(cycle, ids@));
                            }
                        }
                    },
                }
            } else {
                if search.level() == 0 {
                    return None;
                }
                proof {
                    lemma_retreat(budgets_before, weight_base, depth);
                }
                search.backtrack(Ghost(n as nat), Ghost(base));
            }
        }

        proof {
            lemma_no_self_gift(search.rounds(), n as nat, base);
            lemma_no_repeated_edge(search.rounds(), n as nat);
            lemma_no_mutual_exchange(search.rounds());
        }
        Some(search.into_schedule())
    }

    /// Whether `found_cycles` meets every constraint of this draw: every
    /// round passes through each participant exactly once, no round uses an
    /// edge of the base exclusion set, no edge occurs twice, and no edge
    /// occurs together with its reverse.
    pub fn check_constraints(&self, found_cycles: &Vec<Vec<usize>>) -> (valid: bool)
        ensures
            valid == is_schedule(
                views(found_cycles@),
                self.participants().len(),
                self.base_exclusions(),
            ),
    {
        check_schedule(found_cycles, self.participants.len(), &self.base_exclusions)
    }

    /// Goes through `found_cycles` once more, constraint by constraint, and
    /// confirms it. It is for schedules that meet every constraint of this
    /// draw, such as those that `generate` returns; whether a schedule does
    /// is what `check_constraints` tells.
    pub fn assert_constraints(&self, found_cycles: &Vec<Vec<usize>>) -> (valid: bool)
        requires
            is_schedule(
                views(found_cycles@),
                self.participants().len(),
                self.base_exclusions(),
            ),
        ensures
            valid,
            valid == is_schedule(
                views(found_cycles@),
                self.participants().len(),
                self.base_exclusions(),
            ),
    {
        self.check_constraints(found_cycles)
    }

    /// Whether `giver` may never give to `receiver`.
    pub fn is_excluded(&self, giver: usize, receiver: usize) -> (excluded: bool)
        ensures
            excluded == self.base_exclusions().contains((giver, receiver)),
    {
        self.base_exclusions.contains(&(giver, receiver))
    }
}

} // verus!
