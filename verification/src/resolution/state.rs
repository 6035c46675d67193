//! A node of the search: where a partial tour stands and what it still owes.

use crate::bitset::{bounded, members};
use smallbitset::Set64;
use vstd::prelude::*;

verus! {

/// What a [`TspState`] means: plain sets of cities in place of bitsets.
pub struct TspStateView {
    /// The number of decisions taken so far.
    pub depth: nat,
    /// The cities at which a partial tour reaching this node may stand.
    pub current: Set<u8>,
    /// The cities that every such partial tour has yet to visit.
    pub must_visit: Set<u8>,
    /// The cities that only some of them have yet to visit.
    pub might_visit: Set<u8>,
}

impl TspStateView {
    /// The cities still open from this node: those owed for sure and those
    /// owed perhaps.
    pub open spec fn remaining(self) -> Set<u8> {
        self.must_visit.union(self.might_visit)
    }

    /// No city is both owed for sure and owed perhaps, and all three sets
    /// stay within the capacity of a bitset.
    pub open spec fn wf(self) -> bool {
        &&& self.must_visit.disjoint(self.might_visit)
        &&& bounded(self.current)
        &&& bounded(self.must_visit)
        &&& bounded(self.might_visit)
    }

    /// The node stands for partial tours that all end in one city.
    pub open spec fn is_exact(self) -> bool {
        self.current.finite() && self.current.len() == 1
    }
}

/// A node of a decision diagram. Exact nodes stand at one city; a merged
/// node stands at any of several.
#[derive(Debug, Clone, Copy, Eq, PartialEq, Hash)]
pub struct TspState {
    depth: usize,
    current: Set64,
    must_visit: Set64,
    might_visit: Set64,
}

impl View for TspState {
    type V = TspStateView;

    closed spec fn view(&self) -> TspStateView {
        TspStateView {
            depth: self.depth as nat,
            current: members(self.current),
            must_visit: members(self.must_visit),
            might_visit: members(self.might_visit),
        }
    }
}

impl TspState {
    /// The view is well formed.
    pub open spec fn wf(&self) -> bool {
        self@.wf()
    }

    pub(crate) fn new(depth: usize, current: Set64, must_visit: Set64, might_visit: Set64) -> (r:
        TspState)
        ensures
            r@ == (TspStateView {
                depth: depth as nat,
                current: members(current),
                must_visit: members(must_visit),
                might_visit: members(might_visit),
            }),
    {
        TspState { depth, current, must_visit, might_visit }
    }

    /// The number of decisions taken so far.
    pub fn depth(&self) -> (r: usize)
        ensures
            r == self@.depth,
    {
        self.depth
    }

    /// The cities at which the node may stand.
    pub fn current(&self) -> (r: Set64)
        ensures
            members(r) == self@.current,
    {
        self.current
    }

    /// The cities owed for sure.
    pub fn must_visit(&self) -> (r: Set64)
        ensures
            members(r) == self@.must_visit,
    {
        self.must_visit
    }

    /// The cities owed perhaps.
    pub fn might_visit(&self) -> (r: Set64)
        ensures
            members(r) == self@.might_visit,
    {
        self.might_visit
    }
}

} // verus!
