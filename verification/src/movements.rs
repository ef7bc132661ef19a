//! Per-node movement records, keyed by node identifier. The geometric step
//! itself belongs to the Cartesian-placement collaborators outside the core;
//! the core only tracks which nodes move.

use crate::graph::ID;
use std::collections::HashMap;
use vstd::prelude::*;

verus! {

broadcast use vstd::std_specs::hash::group_hash_axioms;

/// One node's movement record.
#[derive(Clone, Copy, PartialEq, Eq, Structural)]
pub struct Movement {}

impl Movement {
    pub fn new() -> (r: Movement) {
        Movement {  }
    }
}

/// The movement records of all moving nodes.
pub struct Movements {
    pub data: HashMap<ID, Movement>,
}

impl Movements {
    pub fn new() -> (r: Movements)
        ensures
            r.data@ == Map::<ID, Movement>::empty(),
    {
        Movements { data: HashMap::new() }
    }

    pub fn clear(&mut self)
        ensures
            final(self).data@ == Map::<ID, Movement>::empty(),
    {
        self.data.clear();
    }

    pub fn remove_node(&mut self, id: ID)
        ensures
            final(self).data@ == old(self).data@.remove(id),
    {
        self.data.remove(&id);
    }
}

} // verus!
