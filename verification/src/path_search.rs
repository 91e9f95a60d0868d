//! The state of the depth-first search for one cycle: the path, the marks
//! on the seed, and the stack of frames, with the moves that the search
//! makes on them.
use crate::budget::{lemma_descend, lemma_retreat, lemma_spend, potential};
use crate::cycle::{edge_at, lemma_distinct_within, position_of};
use crate::goals::{
    all_open, dead_end, is_goal, lemma_all_open_after_retreat, lemma_all_open_after_skip,
    lemma_all_open_after_step, lemma_all_open_at_start,
};
use vstd::prelude::*;

verus! {

/// The candidate lists of the frames on the stack.
pub open spec fn frames_of(stack: Seq<(usize, Vec<usize>)>) -> Seq<Seq<usize>> {
    Seq::new(stack.len(), |k: int| stack[k].1@)
}

/// How many candidates each frame has left.
pub open spec fn budgets_of(frames: Seq<Seq<usize>>) -> Seq<nat> {
    Seq::new(frames.len(), |k: int| frames[k].len())
}

/// What a sequence holds after one more element.
pub proof fn lemma_contains_after_push(s: Seq<usize>, last: usize, value: usize)
    ensures
        s.push(last).contains(value) <==> s.contains(value) || value == last,
{
    if s.contains(value) {
        let t = choose|t: int| 0 <= t < s.len() && s[t] == value;
        assert(s.push(last)[t] == value);
    }
    if value == last {
        assert(s.push(last)[s.len() as int] == value);
    }
}

/// What a sequence without repetitions holds without its last element.
pub proof fn lemma_contains_after_drop(s: Seq<usize>, value: usize)
    requires
        s.len() > 0,
        s.no_duplicates(),
    ensures
        s.drop_last().contains(value) <==> s.contains(value) && value != s.last(),
{
    if s.contains(value) && value != s.last() {
        let t = choose|t: int| 0 <= t < s.len() && s[t] == value;
        assert(s.drop_last()[t] == value);
    }
}

/// Whether `path` is made of different elements of `ids` and starts where
/// `ids` starts.
pub open spec fn path_ok(path: Seq<usize>, ids: Seq<usize>) -> bool {
    &&& path.len() <= ids.len()
    &&& path.no_duplicates()
    &&& path.len() > 0 ==> path[0] == ids[0]
    &&& forall|k: int| 0 <= k < path.len() ==> ids.contains(#[trigger] path[k])
}

/// Whether `uses` marks exactly the positions of `ids` whose element is on
/// `path`.
pub open spec fn marks_match(uses: Seq<bool>, path: Seq<usize>, ids: Seq<usize>) -> bool {
    &&& uses.len() == ids.len()
    &&& forall|j: int| 0 <= j < ids.len() ==> (#[trigger] uses[j] <==> path.contains(ids[j]))
}

/// Whether `frame` is fit to be frame `k` of a search over `n` indices.
pub open spec fn frame_ok(frame: (usize, Vec<usize>), k: int, n: nat) -> bool {
    &&& frame.0 == k
    &&& frame.1@.len() <= n
    &&& forall|m: int| 0 <= m < frame.1@.len() ==> #[trigger] frame.1@[m] < n
}

/// The edge from element `k` of `path` to the next.
pub open spec fn link(path: Seq<usize>, k: int) -> (usize, usize) {
    (path[k], path[k + 1])
}

/// Whether no two neighbours on `path` form an edge of `forbidden`.
pub open spec fn path_avoids(path: Seq<usize>, forbidden: Set<(usize, usize)>) -> bool {
    forall|k: int| 0 <= k < path.len() - 1 ==> !forbidden.contains(#[trigger] link(path, k))
}

/// A path stays in order when it goes on with an element of the seed that
/// it does not hold yet.
pub proof fn lemma_path_after_push(path: Seq<usize>, ids: Seq<usize>, then: usize)
    requires
        path_ok(path, ids),
        path.len() > 0,
        ids.contains(then),
        !path.contains(then),
    ensures
        path_ok(path.push(then), ids),
{
    let longer = path.push(then);
    lemma_distinct_within(longer, ids);
}

/// The marks stay right when a position is marked and its element joins
/// the path.
pub proof fn lemma_marks_after_push(uses: Seq<bool>, path: Seq<usize>, ids: Seq<usize>, at: int)
    requires
        marks_match(uses, path, ids),
        ids.no_duplicates(),
        0 <= at < ids.len(),
    ensures
        marks_match(uses.update(at, true), path.push(ids[at]), ids),
{
    assert forall|j: int| 0 <= j < ids.len() implies (#[trigger] uses.update(at, true)[j]
        <==> path.push(ids[at]).contains(ids[j])) by {
        lemma_contains_after_push(path, ids[at], ids[j]);
    }
}

/// The marks stay right when the path loses its last element and the
/// position of that element is unmarked.
pub proof fn lemma_marks_after_drop(uses: Seq<bool>, path: Seq<usize>, ids: Seq<usize>, at: int)
    requires
        marks_match(uses, path, ids),
        path.no_duplicates(),
        ids.no_duplicates(),
        path.len() > 0,
        0 <= at < ids.len(),
        ids[at] == path.last(),
    ensures
        marks_match(uses.update(at, false), path.drop_last(), ids),
{
    assert forall|j: int| 0 <= j < ids.len() implies (#[trigger] uses.update(at, false)[j]
        <==> path.drop_last().contains(ids[j])) by {
        lemma_contains_after_drop(path, ids[j]);
    }
}

/// A path still avoids `forbidden` when it goes on along an edge that is
/// not forbidden.
pub proof fn lemma_avoids_after_push(path: Seq<usize>, forbidden: Set<(usize, usize)>, then: usize)
    requires
        path_avoids(path, forbidden),
        path.len() > 0,
        !forbidden.contains((path.last(), then)),
    ensures
        path_avoids(path.push(then), forbidden),
{
    let longer = path.push(then);
    assert forall|k: int| 0 <= k < longer.len() - 1 implies !forbidden.contains(
        #[trigger] link(longer, k),
    ) by {
        if k + 1 < path.len() {
            assert(link(longer, k) == link(path, k));
        }
    }
}

/// A path still avoids `forbidden` when it loses its last element.
pub proof fn lemma_avoids_after_drop(path: Seq<usize>, forbidden: Set<(usize, usize)>)
    requires
        path_avoids(path, forbidden),
        path.len() > 0,
    ensures
        path_avoids(path.drop_last(), forbidden),
{
    let shorter = path.drop_last();
    assert forall|k: int| 0 <= k < shorter.len() - 1 implies !forbidden.contains(
        #[trigger] link(shorter, k),
    ) by {
        assert(link(shorter, k) == link(path, k));
    }
}

/// The frames after a step: the top frame has lost its last candidate, and
/// a frame with the candidates `fresh` lies on top of it. The potential of
/// the stack has gone down.
pub proof fn lemma_frames_after_step(
    before: Seq<(usize, Vec<usize>)>,
    after: Seq<(usize, Vec<usize>)>,
    n: nat,
    fresh: Seq<usize>,
)
    requires
        0 < before.len() <= n,
        forall|k: int| 0 <= k < before.len() ==> frame_ok(#[trigger] before[k], k, n),
        before.last().1@.len() > 0,
        after.len() == before.len() + 1,
        forall|k: int| 0 <= k < before.len() - 1 ==> after[k] == before[k],
        after[before.len() - 1].0 == before.last().0,
        after[before.len() - 1].1@ == before.last().1@.drop_last(),
        after[before.len() as int].0 == before.len(),
        after[before.len() as int].1@ == fresh,
        fresh.len() == n,
        forall|m: int| 0 <= m < fresh.len() ==> fresh[m] < n,
    ensures
        forall|k: int| 0 <= k < after.len() ==> frame_ok(#[trigger] after[k], k, n),
        frames_of(after) == frames_of(before).update(
            before.len() - 1,
            frames_of(before).last().drop_last(),
        ).push(fresh),
        potential(budgets_of(frames_of(after)), n + 2, n) < potential(
            budgets_of(frames_of(before)),
            n + 2,
            n,
        ),
{
    let top = before.len() - 1;
    let budgets = budgets_of(frames_of(before));
    let left = (before.last().1@.len() - 1) as nat;
    assert(budgets_of(frames_of(after)) =~= budgets.update(top, left).push(n));
    lemma_descend(budgets, n + 2, n, left, n);
}

/// A path that lacks one element, closed with that element, is a goal if
/// the two new edges are allowed.
pub proof fn lemma_closed_path_is_goal(
    path: Seq<usize>,
    ids: Seq<usize>,
    forbidden: Set<(usize, usize)>,
    then: usize,
)
    requires
        path_ok(path, ids),
        path_avoids(path, forbidden),
        path.len() > 0,
        path.len() + 1 == ids.len(),
        ids.contains(then),
        !path.contains(then),
        !forbidden.contains((path.last(), then)),
        !forbidden.contains((then, path[0])),
    ensures
        is_goal(path.push(then), ids, forbidden),
{
    let closed = path.push(then);
    lemma_avoids_after_push(path, forbidden, then);
    assert forall|t: int| 0 <= t < closed.len() implies !forbidden.contains(
        #[trigger] edge_at(closed, t),
    ) by {
        if t + 1 < closed.len() {
            assert(edge_at(closed, t) == link(closed, t));
        }
    }
}

/// The state of one depth-first search: the path built so far, which
/// positions of the seed are on it, and one frame for each of its elements.
pub(crate) struct PathSearch {
    path: Vec<usize>,
    uses: Vec<bool>,
    stack: Vec<(usize, Vec<usize>)>,
}

impl PathSearch {
    /// The path built so far.
    pub(crate) closed spec fn path(&self) -> Seq<usize> {
        self.path@
    }

    /// The candidates that each frame may still try.
    pub(crate) closed spec fn frames(&self) -> Seq<Seq<usize>> {
        frames_of(self.stack@)
    }

    /// The shape of the state: the path is made of different elements of
    /// the seed `ids` and starts where the seed starts, the marks say
    /// which positions of the seed are on the path, and there is one frame
    /// for each element of the path.
    pub(crate) closed spec fn wf(&self, ids: Seq<usize>) -> bool {
        &&& 0 < ids.len() <= usize::MAX
        &&& ids.no_duplicates()
        &&& self.stack@.len() == self.path@.len()
        &&& path_ok(self.path@, ids)
        &&& marks_match(self.uses@, self.path@, ids)
        &&& forall|k: int|
            0 <= k < self.stack@.len() ==> frame_ok(#[trigger] self.stack@[k], k, ids.len())
    }

    /// Whether the path uses no edge of `forbidden`.
    pub(crate) open spec fn sound(&self, forbidden: Set<(usize, usize)>) -> bool {
        path_avoids(self.path(), forbidden)
    }

    /// Whether every goal is still open.
    pub(crate) open spec fn complete(
        &self,
        ids: Seq<usize>,
        forbidden: Set<(usize, usize)>,
    ) -> bool {
        all_open(self.path(), ids, forbidden, self.frames())
    }

    /// What holds of the state between any two moves of the search.
    pub(crate) open spec fn inv(&self, ids: Seq<usize>, forbidden: Set<(usize, usize)>) -> bool {
        &&& self.wf(ids)
        &&& self.frames().len() == self.path().len()
        &&& self.sound(forbidden)
        &&& self.complete(ids, forbidden)
    }

    /// What every move of the search lowers.
    pub(crate) open spec fn measure(&self, n: nat) -> nat {
        potential(budgets_of(self.frames()), n + 2, n)
    }

    /// The state at the start: the path is the seed's first element, and
    /// the one frame holds `first_choices`.
    pub(crate) fn start(
        ids: &Vec<usize>,
        first_choices: Vec<usize>,
        Ghost(forbidden): Ghost<Set<(usize, usize)>>,
    ) -> (search: Self)
        requires
            ids@.len() > 0,
            ids@.no_duplicates(),
            ids@.len() == 1 ==> forbidden.contains((ids@[0], ids@[0])),
            first_choices@.len() == ids@.len(),
            forall|m: int| 0 <= m < first_choices@.len() ==> first_choices@[m] < ids@.len(),
            forall|j: usize| j < ids@.len() ==> first_choices@.contains(j),
        ensures
            search.inv(ids@, forbidden),
    {
        let n = ids.len();
        let mut path: Vec<usize> = Vec::new();
        path.push(ids[0]);
        let mut uses: Vec<bool> = vec![false; n];
        uses[0] = true;
        let mut stack: Vec<(usize, Vec<usize>)> = Vec::new();
        stack.push((0, first_choices));
        let search = PathSearch { path, uses, stack };
        proof {
            assert(search.frames() =~= seq![first_choices@]);
            lemma_all_open_at_start(ids@, forbidden, first_choices@);
        }
        search
    }

    /// Whether no frame is left: the search has tried everything.
    pub(crate) fn is_exhausted(&self) -> (done: bool)
        ensures
            done == (self.frames().len() == 0),
    {
        self.stack.len() == 0
    }

    /// The number of elements on the path.
    pub(crate) fn len(&self) -> (len: usize)
        ensures
            len == self.path().len(),
    {
        self.path.len()
    }

    /// The element that the path starts with.
    pub(crate) fn first(&self) -> (first: usize)
        requires
            self.path().len() > 0,
        ensures
            first == self.path()[0],
    {
        self.path[0]
    }

    /// Whether position `i` of the seed is on the path.
    pub(crate) fn is_used(&self, Ghost(ids): Ghost<Seq<usize>>, i: usize) -> (used: bool)
        requires
            self.wf(ids),
            i < ids.len(),
        ensures
            used == self.path().contains(ids[i as int]),
    {
        self.uses[i]
    }

    /// The path's last element together with the candidate that the top
    /// frame would try next, if it has one left.
    pub(crate) fn candidate(&self, Ghost(ids): Ghost<Seq<usize>>) -> (next: Option<(usize, usize)>)
        requires
            self.wf(ids),
            self.frames().len() > 0,
        ensures
            self.path().len() > 0,
            match next {
                Some((last, i)) => {
                    &&& self.frames().last().len() > 0
                    &&& i == self.frames().last().last()
                    &&& i < ids.len()
                    &&& last == self.path().last()
                },
                None => self.frames().last().len() == 0,
            },
    {
        let top = self.stack.len() - 1;
        let frame = &self.stack[top];
        let remaining = frame.1.len();
        if remaining == 0 {
            None
        } else {
            Some((self.path[frame.0], frame.1[remaining - 1]))
        }
    }

    /// Gives up the candidate that the top frame would try next.
    pub(crate) fn skip(
        &mut self,
        Ghost(ids): Ghost<Seq<usize>>,
        Ghost(forbidden): Ghost<Set<(usize, usize)>>,
    )
        requires
            old(self).inv(ids, forbidden),
            old(self).frames().len() > 0,
            old(self).frames().last().len() > 0,
            dead_end(
                old(self).path(),
                ids,
                forbidden,
                ids[old(self).frames().last().last() as int],
            ),
        ensures
            final(self).inv(ids, forbidden),
            final(self).measure(ids.len()) < old(self).measure(ids.len()),
    {
        let ghost frames_before = self.frames();
        let ghost budgets_before = budgets_of(frames_before);
        let (path_idx, mut choices) = self.stack.pop().unwrap();
        let _ = choices.pop();
        self.stack.push((path_idx, choices));
        proof {
            let left = (frames_before.last().len() - 1) as nat;
            assert(self.frames() =~= frames_before.update(
                frames_before.len() - 1,
                frames_before.last().drop_last(),
            ));
            assert(budgets_of(self.frames()) =~= budgets_before.update(
                budgets_before.len() - 1,
                left,
            ));
            lemma_spend(budgets_before, ids.len() + 2, ids.len(), left);
            lemma_all_open_after_skip(self.path(), ids, forbidden, frames_before);
        }
    }

    /// Takes the candidate that the top frame would try next as the path's
    /// next element, and opens a frame with the candidates `next_choices`.
    pub(crate) fn step(
        &mut self,
        ids: &Vec<usize>,
        next_choices: Vec<usize>,
        Ghost(forbidden): Ghost<Set<(usize, usize)>>,
    )
        requires
            old(self).inv(ids@, forbidden),
            old(self).frames().len() > 0,
            old(self).frames().last().len() > 0,
            !old(self).path().contains(ids@[old(self).frames().last().last() as int]),
            !forbidden.contains(
                (old(self).path().last(), ids@[old(self).frames().last().last() as int]),
            ),
            old(self).path().len() + 1 != ids@.len(),
            next_choices@.len() == ids@.len(),
            forall|m: int| 0 <= m < next_choices@.len() ==> next_choices@[m] < ids@.len(),
            forall|j: usize| j < ids@.len() ==> next_choices@.contains(j),
        ensures
            final(self).inv(ids@, forbidden),
            final(self).measure(ids@.len()) < old(self).measure(ids@.len()),
    {
        let ghost path_before = self.path();
        let ghost uses_before = self.uses@;
        let ghost stack_before = self.stack@;
        let ghost frames_before = self.frames();
        let (path_idx, mut choices) = self.stack.pop().unwrap();
        let i = choices.pop().unwrap();
        let next = ids[i];
        self.stack.push((path_idx, choices));
        self.uses[i] = true;
        self.path.push(next);
        self.stack.push((self.path.len() - 1, next_choices));
        proof {
            lemma_path_after_push(path_before, ids@, next);
            lemma_marks_after_push(uses_before, path_before, ids@, i as int);
            lemma_avoids_after_push(path_before, forbidden, next);
            lemma_frames_after_step(stack_before, self.stack@, ids@.len(), next_choices@);
            lemma_all_open_after_step(
                path_before,
                ids@,
                forbidden,
                frames_before,
                next_choices@,
            );
        }
    }

    /// Takes the candidate that the top frame would try next as the last
    /// element of the cycle, and hands the cycle out.
    pub(crate) fn finish(
        self,
        ids: &Vec<usize>,
        Ghost(forbidden): Ghost<Set<(usize, usize)>>,
    ) -> (cycle: Vec<usize>)
        requires
            self.inv(ids@, forbidden),
            self.frames().len() > 0,
            self.frames().last().len() > 0,
            !self.path().contains(ids@[self.frames().last().last() as int]),
            !forbidden.contains((self.path().last(), ids@[self.frames().last().last() as int])),
            !forbidden.contains((ids@[self.frames().last().last() as int], self.path()[0])),
            self.path().len() + 1 == ids@.len(),
        ensures
            is_goal(cycle@, ids@, forbidden),
    {
        let ghost path_before = self.path();
        let top = self.stack.len() - 1;
        let frame = &self.stack[top];
        let next = ids[frame.1[frame.1.len() - 1]];
        let mut path = self.path;
        path.push(next);
        proof {
            lemma_closed_path_is_goal(path_before, ids@, forbidden, next);
        }
        path
    }

    /// Drops the top frame, which has no candidate left, and with it the
    /// path's last element.
    pub(crate) fn retreat(
        &mut self,
        ids: &Vec<usize>,
        Ghost(forbidden): Ghost<Set<(usize, usize)>>,
    )
        requires
            old(self).inv(ids@, forbidden),
            old(self).frames().len() > 0,
            old(self).frames().last().len() == 0,
        ensures
            final(self).inv(ids@, forbidden),
            final(self).measure(ids@.len()) < old(self).measure(ids@.len()),
    {
        let ghost path_before = self.path();
        let ghost uses_before = self.uses@;
        let ghost frames_before = self.frames();
        let ghost budgets_before = budgets_of(frames_before);
        self.stack.pop();
        proof {
            assert(self.frames() =~= frames_before.drop_last());
            assert(budgets_of(self.frames()) =~= budgets_before.drop_last());
            lemma_retreat(budgets_before, ids@.len() + 2, ids@.len());
            lemma_avoids_after_drop(path_before, forbidden);
        }
        match self.path.pop() {
            Some(removed_id) => {
                match position_of(ids, removed_id) {
                    Some(idx_in_ids) => {
                        self.uses[idx_in_ids] = false;
                        proof {
                            lemma_marks_after_drop(
                                uses_before,
                                path_before,
                                ids@,
                                idx_in_ids as int,
                            );
                        }
                    },
                    None => {},
                }
            },
            None => {},
        }
        proof {
            lemma_all_open_after_retreat(path_before, ids@, forbidden, frames_before);
        }
    }
}

} // verus!
