//! Secret-santa scheduling under exclusion constraints.
//!
//! Every member of a group gives one gift per round. Nobody gives to
//! themself, to a member of their own family, or to somebody they gave to in
//! the previous period, and no two members ever give to each other, in any
//! round. A round is a single cycle through all members; a schedule is a
//! list of rounds. (A group of two has no round: the two would give to each
//! other.)
//!
//! The search is randomized: which schedule comes out is not determined, but
//! every schedule that does come out is proved to respect the constraints,
//! and the search is proved to terminate.
use vstd::prelude::*;

pub mod budget;
pub mod config;
pub mod cycle;
pub mod disclosure;
pub mod edge_set;
pub mod goals;
pub mod path_search;
pub mod random;
pub mod santa_engine;
pub mod schedule;
pub mod schedule_search;
pub mod validate;

verus! {

/// Number of attempts the schedule search spends on one round level before
/// it gives that level up.
pub const SOLVER_LOOPS: usize = 100;

} // verus!
