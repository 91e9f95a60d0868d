//! The description of a draw: who takes part, and how many rounds are wanted.
use vstd::prelude::*;

verus! {

/// One participant as described by the user: by name.
#[derive(Debug, Clone)]
pub struct RawParticipant {
    pub name: String,
    pub family: usize,
    /// The names of those this participant gave to in the previous period.
    pub last_year_targets: Vec<String>,
}

/// A draw: the participants in order, and the number of rounds wanted.
#[derive(Debug)]
pub struct Config {
    pub n_gifts: usize,
    pub participants: Vec<RawParticipant>,
}

/// The index that `name` stands for among `people`: that of the last
/// participant who bears it, if there is one.
pub open spec fn last_named(people: Seq<RawParticipant>, name: Seq<char>) -> Option<usize>
    decreases people.len(),
{
    if people.len() == 0 {
        None
    } else if people.last().name@ == name {
        Some((people.len() - 1) as usize)
    } else {
        last_named(people.drop_last(), name)
    }
}

/// The indices that the names in `wanted` stand for, in the order of
/// `wanted`. A name that nobody bears contributes nothing.
pub open spec fn resolved_targets(people: Seq<RawParticipant>, wanted: Seq<String>) -> Seq<usize>
    decreases wanted.len(),
{
    if wanted.len() == 0 {
        Seq::empty()
    } else {
        let earlier = resolved_targets(people, wanted.drop_last());
        match last_named(people, wanted.last()@) {
            Some(index) => earlier.push(index),
            None => earlier,
        }
    }
}

/// What `last_named` finds is the last participant of that name, and it
/// finds nothing only if nobody bears the name.
pub proof fn lemma_last_named(people: Seq<RawParticipant>, name: Seq<char>)
    requires
        people.len() <= usize::MAX,
    ensures
        match last_named(people, name) {
            Some(index) => {
                &&& index < people.len()
                &&& people[index as int].name@ == name
                &&& forall|j: int| index < j < people.len() ==> people[j].name@ != name
            },
            None => forall|j: int| 0 <= j < people.len() ==> people[j].name@ != name,
        },
    decreases people.len(),
{
    if people.len() > 0 && people.last().name@ != name {
        lemma_last_named(people.drop_last(), name);
        match last_named(people, name) {
            Some(index) => {
                assert forall|j: int| index < j < people.len() implies people[j].name@
                    != name by {
                    if j < people.len() - 1 {
                        assert(people.drop_last()[j].name@ != name);
                    }
                }
            },
            None => {
                assert forall|j: int| 0 <= j < people.len() implies people[j].name@ != name by {
                    if j < people.len() - 1 {
                        assert(people.drop_last()[j].name@ != name);
                    }
                }
            },
        }
    }
}

/// Every index in `resolved_targets` is the index of a participant.
pub proof fn lemma_resolved_targets_in_range(people: Seq<RawParticipant>, wanted: Seq<String>)
    requires
        people.len() <= usize::MAX,
    ensures
        forall|k: int|
            0 <= k < resolved_targets(people, wanted).len() ==> resolved_targets(
                people,
                wanted,
            )[k] < people.len(),
    decreases wanted.len(),
{
    if wanted.len() > 0 {
        lemma_resolved_targets_in_range(people, wanted.drop_last());
        lemma_last_named(people, wanted.last()@);
        let all = resolved_targets(people, wanted);
        let earlier = resolved_targets(people, wanted.drop_last());
        assert forall|k: int| 0 <= k < all.len() implies all[k] < people.len() by {
            if k < earlier.len() {
                assert(all[k] == earlier[k]);
            }
        }
    }
}

impl Config {
    /// Looks `name` up among the participants.
    pub fn index_of(&self, name: &String) -> (found: Option<usize>)
        ensures
            found == last_named(self.participants@, name@),
    {
        let mut i: usize = self.participants.len();
        assert(self.participants@.take(i as int) =~= self.participants@);
        while i > 0
            invariant
                i <= self.participants@.len(),
                last_named(self.participants@, name@) == last_named(
                    self.participants@.take(i as int),
                    name@,
                ),
            decreases i,
        {
            i -= 1;
            proof {
                let before = self.participants@.take(i + 1);
                assert(before.drop_last() =~= self.participants@.take(i as int));
            }
            if self.participants[i].name == *name {
                return Some(i);
            }
        }
        None
    }

    /// Looks up each of the names in `wanted`, and keeps what is found.
    pub fn indices_of(&self, wanted: &Vec<String>) -> (found: Vec<usize>)
        ensures
            found@ == resolved_targets(self.participants@, wanted@),
    {
        let mut found: Vec<usize> = Vec::new();
        let mut k: usize = 0;
        while k < wanted.len()
            invariant
                k <= wanted@.len(),
                found@ == resolved_targets(self.participants@, wanted@.take(k as int)),
            decreases wanted@.len() - k,
        {
            proof {
                let upto = wanted@.take(k + 1);
                assert(upto.drop_last() =~= wanted@.take(k as int));
            }
            match self.index_of(&wanted[k]) {
                Some(index) => {
                    found.push(index);
                },
                None => {},
            }
            k += 1;
        }
        assert(wanted@.take(k as int) =~= wanted@);
        found
    }
}

} // verus!
