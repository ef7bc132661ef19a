//! Per-node metadata: free-form text records keyed by node identifier, kept
//! for export and display; the core never reads them.

use crate::graph::ID;
use std::collections::HashMap;
use vstd::prelude::*;

verus! {

broadcast use vstd::std_specs::hash::group_hash_axioms;

/// Free-form per-node records.
pub struct Meta {
    pub data: HashMap<ID, String>,
}

impl Meta {
    pub fn new() -> (r: Meta)
        ensures
            r.data@ == Map::<ID, String>::empty(),
    {
        Meta { data: HashMap::new() }
    }

    pub fn clear(&mut self)
        ensures
            final(self).data@ == Map::<ID, String>::empty(),
    {
        self.data.clear();
    }

    pub fn remove_node(&mut self, id: ID)
        ensures
            final(self).data@ == old(self).data@.remove(id),
    {
        self.data.remove(&id);
    }

    pub fn insert(&mut self, id: ID, data: String)
        ensures
            final(self).data@ == old(self).data@.insert(id, data),
    {
        self.data.insert(id, data);
    }
}

} // verus!
