//! Sets of directed edges between participants.
use std::collections::HashSet;
use vstd::prelude::*;

verus! {

/// The edge that runs the other way.
pub open spec fn reverse(edge: (usize, usize)) -> (usize, usize) {
    (edge.1, edge.0)
}

/// The number under which an edge is stored: the giver in the upper 64 bits,
/// the receiver in the lower 64 bits. Different edges have different
/// numbers.
pub open spec fn edge_key(edge: (usize, usize)) -> u128 {
    (edge.0 * 0x1_0000_0000_0000_0000 + edge.1) as u128
}

/// A finite set of directed edges `(giver, receiver)`.
///
/// The edges are kept in a hash set, each under its `edge_key`.
pub struct EdgeSet {
    keys: HashSet<u128>,
}

impl View for EdgeSet {
    type V = Set<(usize, usize)>;

    closed spec fn view(&self) -> Set<(usize, usize)> {
        Set::new(|edge: (usize, usize)| self.keys@.contains(edge_key(edge)))
    }
}

/// The number under which `edge` is stored.
fn key_of(edge: &(usize, usize)) -> (key: u128)
    ensures
        key == edge_key(*edge),
{
    (edge.0 as u128) * 0x1_0000_0000_0000_0000u128 + (edge.1 as u128)
}

impl EdgeSet {
    /// The empty set.
    pub fn new() -> (set: Self)
        ensures
            set@ == Set::<(usize, usize)>::empty(),
    {
        EdgeSet { keys: HashSet::new() }
    }

    /// Whether `edge` is in the set.
    pub fn contains(&self, edge: &(usize, usize)) -> (found: bool)
        ensures
            found == self@.contains(*edge),
    {
        let key = key_of(edge);
        self.keys.contains(&key)
    }

    /// Adds `edge` to the set, and says whether it was new.
    pub fn insert(&mut self, edge: (usize, usize)) -> (fresh: bool)
        ensures
            final(self)@ == old(self)@.insert(edge),
            fresh == !old(self)@.contains(edge),
    {
        let key = key_of(&edge);
        self.keys.insert(key)
    }

    /// Takes `edge` out of the set, and says whether it was there.
    pub fn remove(&mut self, edge: &(usize, usize)) -> (present: bool)
        ensures
            final(self)@ == old(self)@.remove(*edge),
            present == old(self)@.contains(*edge),
    {
        let key = key_of(edge);
        self.keys.remove(&key)
    }
}

} // verus!
