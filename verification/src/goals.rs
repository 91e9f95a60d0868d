//! Why the depth-first search for one cycle loses no cycle.
//!
//! The search holds a path and a stack of frames. Frame `k` belongs to path
//! position `k` and lists the candidates, as positions in the seed, that may
//! still be tried as the path's element `k + 1`. A goal is a cycle that the
//! search may return. A goal is *still open* as long as some frame can
//! still lead to it. Every move of the search keeps every goal open, so
//! when no frame is left there is no goal.
use crate::cycle::{avoids, edge_at, is_cycle_through, lemma_cycle_covers, lemma_rotated, rotated};
use vstd::prelude::*;

verus! {

/// Whether `cycle` is one that the search looks for: a cycle through `ids`
/// that starts where `ids` starts and uses no edge of `forbidden`.
pub open spec fn is_goal(
    cycle: Seq<usize>,
    ids: Seq<usize>,
    forbidden: Set<(usize, usize)>,
) -> bool {
    &&& is_cycle_through(cycle, ids)
    &&& cycle[0] == ids[0]
    &&& avoids(cycle, forbidden)
}

/// Whether `cycle` begins with the first `k + 1` elements of `path` and goes
/// on with `then`.
pub open spec fn continues(cycle: Seq<usize>, path: Seq<usize>, k: int, then: usize) -> bool {
    &&& k + 1 < cycle.len()
    &&& k < path.len()
    &&& forall|t: int| 0 <= t <= k ==> cycle[t] == path[t]
    &&& cycle[k + 1] == then
}

/// Whether frame `k`, with the candidates `choices`, can still lead to
/// `cycle`.
pub open spec fn open_at(
    cycle: Seq<usize>,
    path: Seq<usize>,
    ids: Seq<usize>,
    choices: Seq<usize>,
    k: int,
) -> bool {
    exists|m: int|
        0 <= m < choices.len() && #[trigger] choices[m] < ids.len() && continues(
            cycle,
            path,
            k,
            ids[choices[m] as int],
        )
}

/// Whether some frame can still lead to `cycle`.
pub open spec fn still_open(
    cycle: Seq<usize>,
    path: Seq<usize>,
    ids: Seq<usize>,
    frames: Seq<Seq<usize>>,
) -> bool {
    exists|k: int| 0 <= k < frames.len() && open_at(cycle, path, ids, #[trigger] frames[k], k)
}

/// At the start every goal is open: the path is the seed's first element,
/// and the one frame offers every position of the seed.
pub proof fn lemma_open_at_start(
    cycle: Seq<usize>,
    ids: Seq<usize>,
    forbidden: Set<(usize, usize)>,
    choices: Seq<usize>,
)
    requires
        is_goal(cycle, ids, forbidden),
        2 <= ids.len() <= usize::MAX,
        forall|j: usize| j < ids.len() ==> choices.contains(j),
    ensures
        still_open(cycle, seq![ids[0]], ids, seq![choices]),
{
    let path = seq![ids[0]];
    let frames = seq![choices];
    let j = choose|j: int| 0 <= j < ids.len() && ids[j] == cycle[1];
    assert(choices.contains(j as usize));
    assert(open_at(cycle, path, ids, frames[0], 0));
}

/// Dropping the last candidate of the top frame keeps a cycle open if the
/// path cannot go on to it with that candidate.
pub proof fn lemma_open_after_skip(
    cycle: Seq<usize>,
    path: Seq<usize>,
    ids: Seq<usize>,
    frames: Seq<Seq<usize>>,
)
    requires
        frames.len() > 0,
        frames.len() == path.len(),
        frames.last().len() > 0,
        still_open(cycle, path, ids, frames),
        frames.last().last() < ids.len(),
        !continues(cycle, path, path.len() - 1, ids[frames.last().last() as int]),
    ensures
        still_open(
            cycle,
            path,
            ids,
            frames.update(frames.len() - 1, frames.last().drop_last()),
        ),
{
    let top = frames.len() - 1;
    let after = frames.update(top, frames.last().drop_last());
    let k = choose|k: int|
        0 <= k < frames.len() && open_at(cycle, path, ids, #[trigger] frames[k], k);
    let m = choose|m: int|
        0 <= m < frames[k].len() && #[trigger] frames[k][m] < ids.len() && continues(
            cycle,
            path,
            k,
            ids[frames[k][m] as int],
        );
    assert(after[k][m] == frames[k][m]);
}

/// Taking the last candidate of the top frame as the path's next element,
/// and opening a frame that offers every position of the seed, keeps every
/// goal open, as long as the path is not yet complete.
pub proof fn lemma_open_after_step(
    cycle: Seq<usize>,
    path: Seq<usize>,
    ids: Seq<usize>,
    forbidden: Set<(usize, usize)>,
    frames: Seq<Seq<usize>>,
    fresh: Seq<usize>,
)
    requires
        is_goal(cycle, ids, forbidden),
        frames.len() > 0,
        frames.len() == path.len(),
        frames.last().len() > 0,
        still_open(cycle, path, ids, frames),
        frames.last().last() < ids.len(),
        path.len() + 2 <= ids.len() <= usize::MAX,
        forall|j: usize| j < ids.len() ==> fresh.contains(j),
    ensures
        still_open(
            cycle,
            path.push(ids[frames.last().last() as int]),
            ids,
            frames.update(frames.len() - 1, frames.last().drop_last()).push(fresh),
        ),
{
    let top = frames.len() - 1;
    let after = frames.update(top, frames.last().drop_last()).push(fresh);
    let k = choose|k: int|
        0 <= k < frames.len() && open_at(cycle, path, ids, #[trigger] frames[k], k);
    let m = choose|m: int|
        0 <= m < frames[k].len() && #[trigger] frames[k][m] < ids.len() && continues(
            cycle,
            path,
            k,
            ids[frames[k][m] as int],
        );
    if k == top && m == frames[k].len() - 1 {
        let j = choose|j: int| 0 <= j < ids.len() && ids[j] == cycle[top + 2];
        assert(fresh.contains(j as usize));
        assert(after[top + 1] == fresh);
    } else {
        assert(after[k][m] == frames[k][m]);
    }
}

/// Dropping the top frame, once it has no candidate left, together with the
/// path's last element keeps every cycle open that was open.
pub proof fn lemma_open_after_retreat(
    cycle: Seq<usize>,
    path: Seq<usize>,
    ids: Seq<usize>,
    frames: Seq<Seq<usize>>,
)
    requires
        frames.len() > 0,
        frames.len() == path.len(),
        frames.last().len() == 0,
        still_open(cycle, path, ids, frames),
    ensures
        still_open(cycle, path.drop_last(), ids, frames.drop_last()),
{
    let k = choose|k: int|
        0 <= k < frames.len() && open_at(cycle, path, ids, #[trigger] frames[k], k);
    let m = choose|m: int|
        0 <= m < frames[k].len() && #[trigger] frames[k][m] < ids.len() && continues(
            cycle,
            path,
            k,
            ids[frames[k][m] as int],
        );
    assert(frames.drop_last()[k] == frames[k]);
    assert(continues(cycle, path.drop_last(), k, ids[frames[k][m] as int]));
}

/// Whether every goal is still open.
#[verifier::opaque]
pub open spec fn all_open(
    path: Seq<usize>,
    ids: Seq<usize>,
    forbidden: Set<(usize, usize)>,
    frames: Seq<Seq<usize>>,
) -> bool {
    forall|cycle: Seq<usize>|
        is_goal(cycle, ids, forbidden) ==> still_open(cycle, path, ids, frames)
}

/// Whether no goal begins with `path` and goes on with `then`.
#[verifier::opaque]
pub open spec fn dead_end(
    path: Seq<usize>,
    ids: Seq<usize>,
    forbidden: Set<(usize, usize)>,
    then: usize,
) -> bool {
    forall|cycle: Seq<usize>|
        is_goal(cycle, ids, forbidden) ==> !continues(cycle, path, path.len() - 1, then)
}

/// At the start every goal is open. A seed of one element has no goal, as
/// long as the edge from that element to itself is forbidden.
pub proof fn lemma_all_open_at_start(
    ids: Seq<usize>,
    forbidden: Set<(usize, usize)>,
    choices: Seq<usize>,
)
    requires
        0 < ids.len() <= usize::MAX,
        ids.len() == 1 ==> forbidden.contains((ids[0], ids[0])),
        forall|j: usize| j < ids.len() ==> choices.contains(j),
    ensures
        all_open(seq![ids[0]], ids, forbidden, seq![choices]),
{
    reveal(all_open);
    assert forall|cycle: Seq<usize>| is_goal(cycle, ids, forbidden) implies still_open(
        cycle,
        seq![ids[0]],
        ids,
        seq![choices],
    ) by {
        if ids.len() == 1 {
            assert(edge_at(cycle, 0) == (ids[0], ids[0]));
        } else {
            lemma_open_at_start(cycle, ids, forbidden, choices);
        }
    }
}

/// A path cannot go on with one of its own elements.
pub proof fn lemma_repeat_is_dead_end(
    path: Seq<usize>,
    ids: Seq<usize>,
    forbidden: Set<(usize, usize)>,
    then: usize,
)
    requires
        path.len() > 0,
        path.contains(then),
    ensures
        dead_end(path, ids, forbidden, then),
{
    reveal(dead_end);
}

/// A path cannot go on along a forbidden edge.
pub proof fn lemma_forbidden_is_dead_end(
    path: Seq<usize>,
    ids: Seq<usize>,
    forbidden: Set<(usize, usize)>,
    then: usize,
)
    requires
        path.len() > 0,
        forbidden.contains((path.last(), then)),
    ensures
        dead_end(path, ids, forbidden, then),
{
    reveal(dead_end);
    assert forall|cycle: Seq<usize>| is_goal(cycle, ids, forbidden) implies !continues(
        cycle,
        path,
        path.len() - 1,
        then,
    ) by {
        if continues(cycle, path, path.len() - 1, then) {
            assert(edge_at(cycle, path.len() - 1) == (path.last(), then));
        }
    }
}

/// A path that lacks one element cannot end with an element from which the
/// way back to the start is forbidden.
pub proof fn lemma_closing_is_dead_end(
    path: Seq<usize>,
    ids: Seq<usize>,
    forbidden: Set<(usize, usize)>,
    then: usize,
)
    requires
        path.len() > 0,
        path.len() + 1 == ids.len(),
        forbidden.contains((then, path[0])),
    ensures
        dead_end(path, ids, forbidden, then),
{
    reveal(dead_end);
    assert forall|cycle: Seq<usize>| is_goal(cycle, ids, forbidden) implies !continues(
        cycle,
        path,
        path.len() - 1,
        then,
    ) by {
        if continues(cycle, path, path.len() - 1, then) {
            assert(edge_at(cycle, cycle.len() - 1) == (then, path[0]));
        }
    }
}

/// Giving up a candidate that is a dead end keeps every goal open.
pub proof fn lemma_all_open_after_skip(
    path: Seq<usize>,
    ids: Seq<usize>,
    forbidden: Set<(usize, usize)>,
    frames: Seq<Seq<usize>>,
)
    requires
        frames.len() > 0,
        frames.len() == path.len(),
        frames.last().len() > 0,
        frames.last().last() < ids.len(),
        all_open(path, ids, forbidden, frames),
        dead_end(path, ids, forbidden, ids[frames.last().last() as int]),
    ensures
        all_open(
            path,
            ids,
            forbidden,
            frames.update(frames.len() - 1, frames.last().drop_last()),
        ),
{
    reveal(all_open);
    reveal(dead_end);
    assert forall|cycle: Seq<usize>| is_goal(cycle, ids, forbidden) implies still_open(
        cycle,
        path,
        ids,
        frames.update(frames.len() - 1, frames.last().drop_last()),
    ) by {
        lemma_open_after_skip(cycle, path, ids, frames);
    }
}

/// Taking a candidate as the path's next element, and opening a frame that
/// offers every position of the seed, keeps every goal open, as long as the
/// path is not yet complete.
pub proof fn lemma_all_open_after_step(
    path: Seq<usize>,
    ids: Seq<usize>,
    forbidden: Set<(usize, usize)>,
    frames: Seq<Seq<usize>>,
    fresh: Seq<usize>,
)
    requires
        frames.len() > 0,
        frames.len() == path.len(),
        frames.last().len() > 0,
        frames.last().last() < ids.len(),
        path.len() + 2 <= ids.len() <= usize::MAX,
        forall|j: usize| j < ids.len() ==> fresh.contains(j),
        all_open(path, ids, forbidden, frames),
    ensures
        all_open(
            path.push(ids[frames.last().last() as int]),
            ids,
            forbidden,
            frames.update(frames.len() - 1, frames.last().drop_last()).push(fresh),
        ),
{
    reveal(all_open);
    assert forall|cycle: Seq<usize>| is_goal(cycle, ids, forbidden) implies still_open(
        cycle,
        path.push(ids[frames.last().last() as int]),
        ids,
        frames.update(frames.len() - 1, frames.last().drop_last()).push(fresh),
    ) by {
        lemma_open_after_step(cycle, path, ids, forbidden, frames, fresh);
    }
}

/// Dropping a frame that has no candidate left keeps every goal open.
pub proof fn lemma_all_open_after_retreat(
    path: Seq<usize>,
    ids: Seq<usize>,
    forbidden: Set<(usize, usize)>,
    frames: Seq<Seq<usize>>,
)
    requires
        frames.len() > 0,
        frames.len() == path.len(),
        frames.last().len() == 0,
        all_open(path, ids, forbidden, frames),
    ensures
        all_open(path.drop_last(), ids, forbidden, frames.drop_last()),
{
    reveal(all_open);
    assert forall|cycle: Seq<usize>| is_goal(cycle, ids, forbidden) implies still_open(
        cycle,
        path.drop_last(),
        ids,
        frames.drop_last(),
    ) by {
        lemma_open_after_retreat(cycle, path, ids, frames);
    }
}

/// Once no frame is left while every goal is still open, there is no cycle
/// through `ids` that avoids `forbidden`, whatever element it starts with.
pub proof fn lemma_none_when_exhausted(
    path: Seq<usize>,
    ids: Seq<usize>,
    forbidden: Set<(usize, usize)>,
    frames: Seq<Seq<usize>>,
)
    requires
        ids.len() > 0,
        frames.len() == 0,
        all_open(path, ids, forbidden, frames),
    ensures
        forall|cycle: Seq<usize>| !(is_cycle_through(cycle, ids) && avoids(cycle, forbidden)),
{
    reveal(all_open);
    assert forall|cycle: Seq<usize>|
        !(is_cycle_through(cycle, ids) && avoids(cycle, forbidden)) by {
        if is_cycle_through(cycle, ids) && avoids(cycle, forbidden) {
            lemma_cycle_covers(cycle, ids, ids[0]);
            let start = choose|start: int| 0 <= start < cycle.len() && cycle[start] == ids[0];
            lemma_rotated(cycle, ids, forbidden, start);
            assert(is_goal(rotated(cycle, start), ids, forbidden));
        }
    }
}

} // verus!
