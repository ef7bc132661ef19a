//! The stochastic baseline: every node only remembers which neighbors it has
//! heard from recently and forwards each packet to a uniformly random live
//! neighbor.

use crate::graph::{Link, ID};
use crate::rng::random_below;
use crate::sim::{Io, RoutingAlgorithm, TestPacket};
use crate::utils::{str_eq, vec_add_entry, vec_filter};
use vstd::prelude::*;
use vstd::std_specs::cmp::PartialEqSpec;

verus! {

/// A recently heard-from peer and the round it was last heard.
#[derive(Clone, Copy)]
pub struct Neighbor {
    pub id: ID,
    pub last_updated: u32,
}

impl Neighbor {
    pub fn new(id: ID, last_updated: u32) -> (r: Neighbor)
        ensures
            r == (Neighbor { id, last_updated }),
    {
        Neighbor { id, last_updated }
    }
}

/// Two table entries stand for the same peer when their identifiers agree;
/// the refresh stamp does not distinguish them.
impl PartialEq for Neighbor {
    fn eq(&self, other: &Neighbor) -> (r: bool) {
        self.id == other.id
    }
}

impl vstd::std_specs::cmp::PartialEqSpecImpl for Neighbor {
    open spec fn obeys_eq_spec() -> bool {
        true
    }

    open spec fn eq_spec(&self, other: &Neighbor) -> bool {
        self.id == other.id
    }
}

/// Some table entry names this peer with this refresh stamp.
pub open spec fn knows_fresh(ns: Seq<Neighbor>, id: ID, time: u32) -> bool {
    exists|i: int| 0 <= i < ns.len() && (#[trigger] ns[i]).id == id && ns[i].last_updated == time
}

/// Per-node state: the live-neighbor table.
pub struct Node {
    pub neighbors: Vec<Neighbor>,
}

impl Node {
    /// Every entry was refreshed within the five-round aging horizon.
    pub open spec fn aged(&self, time: u32) -> bool {
        forall|i: int|
            0 <= i < self.neighbors@.len() ==> (#[trigger] self.neighbors@[i]).last_updated as int
                + 5 >= time as int
    }

    fn new() -> (r: Node)
        ensures
            r.neighbors@.len() == 0,
    {
        Node { neighbors: Vec::new() }
    }

    /// Drop every entry silent for more than five rounds.
    fn step(&mut self, time: u32)
        ensures
            final(self).aged(time),
            forall|i: int|
                0 <= i < final(self).neighbors@.len() ==> old(self).neighbors@.contains(
                    #[trigger] final(self).neighbors@[i],
                ),
    {
        let keep = |e: &Neighbor| -> (r: bool)
            ensures
                r == ((e.last_updated as int) + 5 >= time as int),
            { (e.last_updated as u64) + 5 >= (time as u64) };
        vec_filter(&mut self.neighbors, keep);
    }

    /// Refresh the sender's entry, or add it.
    fn update(&mut self, from_id: ID, time: u32)
        ensures
            final(self).neighbors@.len() >= old(self).neighbors@.len(),
            forall|i: int|
                0 <= i < final(self).neighbors@.len() ==> (#[trigger] final(self).neighbors@[i])
                    == (Neighbor { id: from_id, last_updated: time }) || old(
                    self,
                ).neighbors@.contains(final(self).neighbors@[i]),
            knows_fresh(final(self).neighbors@, from_id, time),
            forall|id0: ID| #[trigger] knows_fresh(old(self).neighbors@, id0, time) ==> knows_fresh(
                final(self).neighbors@,
                id0,
                time,
            ),
    {
        let ghost ns0 = self.neighbors@;
        vec_add_entry(&mut self.neighbors, &Neighbor { id: from_id, last_updated: time });
        proof {
            let e = Neighbor { id: from_id, last_updated: time };
            if exists|j: int| 0 <= j < ns0.len() && (#[trigger] ns0[j]).eq_spec(&e) {
                let j = choose|j: int|
                    {
                        &&& 0 <= j < ns0.len()
                        &&& (#[trigger] ns0[j]).eq_spec(&e)
                        &&& forall|k: int| 0 <= k < j ==> !(#[trigger] ns0[k]).eq_spec(&e)
                        &&& self.neighbors@ == ns0.update(j, e)
                    };
                assert(self.neighbors@[j] == e);
                assert forall|id0: ID| #[trigger] knows_fresh(ns0, id0, time) implies knows_fresh(
                    self.neighbors@,
                    id0,
                    time,
                ) by {
                    let k = choose|k: int|
                        0 <= k < ns0.len() && (#[trigger] ns0[k]).id == id0 && ns0[k].last_updated
                            == time;
                    if k == j {
                        assert(self.neighbors@[j].id == id0 || id0 == from_id);
                        assert(self.neighbors@[j].id == from_id && id0 == from_id);
                    } else {
                        assert(self.neighbors@[k] == ns0[k]);
                    }
                }
            } else {
                assert(self.neighbors@ == ns0.push(e));
                assert(self.neighbors@[ns0.len() as int] == e);
                assert forall|id0: ID| #[trigger] knows_fresh(ns0, id0, time) implies knows_fresh(
                    self.neighbors@,
                    id0,
                    time,
                ) by {
                    let k = choose|k: int|
                        0 <= k < ns0.len() && (#[trigger] ns0[k]).id == id0 && ns0[k].last_updated
                            == time;
                    assert(self.neighbors@[k] == ns0[k]);
                }
            }
        }
    }
}

/// The random-neighbor baseline over all nodes.
pub struct RandomRouting {
    pub nodes: Vec<Node>,
    pub time: u32,
}

impl RandomRouting {
    pub fn new() -> (r: RandomRouting)
        ensures
            r.wf(),
            r.can_step(),
    {
        let mut nodes: Vec<Node> = Vec::new();
        let mut i: usize = 0;
        while i < 42
            invariant
                nodes@.len() == i,
            decreases 42 - i,
        {
            nodes.push(Node::new());
            i += 1;
        }
        RandomRouting { nodes, time: 0 }
    }
}

impl RoutingAlgorithm for RandomRouting {
    open spec fn wf(&self) -> bool {
        true
    }

    open spec fn node_len(&self) -> int {
        self.nodes@.len() as int
    }

    open spec fn can_step(&self) -> bool {
        (self.time as int) < 0xffff_ffff
    }

    /// Every neighbor-table entry was refreshed within the last five rounds.
    open spec fn aged_ok(&self) -> bool {
        forall|i: int| 0 <= i < self.nodes@.len() ==> (#[trigger] self.nodes@[i]).aged(self.time)
    }

    /// One round advances the counter and leaves, for every delivered link, a
    /// freshly stamped entry for its sender at its receiver.
    open spec fn step_rel(pre: Self, post: Self, links: Seq<Link>) -> bool {
        &&& post.nodes@.len() == pre.nodes@.len()
        &&& post.time as int == pre.time as int + 1
        &&& forall|k: int|
            0 <= k < links.len() && ((#[trigger] links[k]).to as int) < post.nodes@.len()
                ==> knows_fresh(post.nodes@[links[k].to as int].neighbors@, links[k].from, post.time)
    }

    /// `None` exactly on an empty table; any answer names a table entry.
    open spec fn route_ok(&self, packet: TestPacket, r: Option<ID>) -> bool {
        let ns = self.nodes@[packet.receiver as int].neighbors@;
        &&& (r is None <==> ns.len() == 0)
        &&& (r is Some ==> exists|i: int| 0 <= i < ns.len() && (#[trigger] ns[i]).id == r.unwrap())
    }

    open spec fn knows_key(&self, key: Seq<char>) -> bool {
        false
    }

    fn get(&self, key: &str) -> String {
        if str_eq(key, "name") {
            String::from_str("Random Routing")
        } else if str_eq(key, "description") {
            String::from_str("Forward traffic to a random neighbor.")
        } else {
            String::new()
        }
    }

    fn get_node(&self, id: ID, key: &str) -> String {
        String::new()
    }

    fn set(&mut self, key: &str, value: &str) -> (known: bool) {
        false
    }

    /// Full reallocation: empty tables, round counter zero.
    fn reset(&mut self, len: usize)
        ensures
            final(self).time == 0,
            final(self).nodes@.len() == len,
            forall|i: int| 0 <= i < len ==> (#[trigger] final(self).nodes@[i]).neighbors@.len()
                == 0,
    {
        let mut nodes: Vec<Node> = Vec::new();
        let mut i: usize = 0;
        while i < len
            invariant
                i <= len,
                nodes@.len() == i,
                forall|k: int| 0 <= k < i ==> (#[trigger] nodes@[k]).neighbors@.len() == 0,
            decreases len - i,
        {
            nodes.push(Node::new());
            i += 1;
        }
        self.nodes = nodes;
        self.time = 0;
    }

    fn step(&mut self, io: &Io) {
        let ghost n = self.nodes@.len() as int;
        let ghost pre = *self;
        self.time += 1;
        let time = self.time;

        // fade out old entries
        let mut i: usize = 0;
        while i < self.nodes.len()
            invariant
                self.nodes@.len() == n,
                time == self.time,
                i <= n,
                forall|k: int| 0 <= k < i ==> (#[trigger] self.nodes@[k]).aged(time),
            decreases n - i,
        {
            let node = &mut self.nodes[i];
            node.step(time);
            i += 1;
        }

        // simulate broadcast traffic: each link refreshes its sender's entry
        // at the receiver
        let mut iter = io.link_iter();
        loop
            invariant
                io.wf(),
                iter.graph == io.graph,
                io.node_count_spec() == n,
                self.nodes@.len() == n,
                time == self.time,
                time as int == pre.time as int + 1,
                iter.idx <= iter.graph.links@.len(),
                forall|k: int| 0 <= k < n ==> (#[trigger] self.nodes@[k]).aged(time),
                forall|k: int|
                    0 <= k < iter.idx && ((#[trigger] iter.graph.links@[k]).to as int) < n
                        ==> knows_fresh(
                        self.nodes@[iter.graph.links@[k].to as int].neighbors@,
                        iter.graph.links@[k].from,
                        time,
                    ),
            ensures
                iter.idx == iter.graph.links@.len(),
            decreases iter.graph.links@.len() - iter.idx,
        {
            let pair = match iter.next() {
                Some(p) => p,
                None => {
                    break ;
                },
            };
            let (from, to) = pair;
            let ghost node0 = self.nodes@[to as int];
            let dst = &mut self.nodes[to as usize];
            dst.update(from, time);
            proof {
                assert forall|e: int| 0 <= e < self.nodes@[to as int].neighbors@.len() implies (
                #[trigger] self.nodes@[to as int].neighbors@[e]).last_updated as int + 5 >= time
                    as int by {
                    if self.nodes@[to as int].neighbors@[e] != (Neighbor {
                        id: from,
                        last_updated: time,
                    }) {
                        assert(node0.neighbors@.contains(self.nodes@[to as int].neighbors@[e]));
                        let k = choose|k: int|
                            0 <= k < node0.neighbors@.len() && node0.neighbors@[k] == self.nodes@[to
                                as int].neighbors@[e];
                    }
                }
            }
        }
    }

    /// Uniformly random live neighbor, `None` when the table is empty.
    fn route(&self, packet: &TestPacket) -> Option<ID> {
        let from = packet.receiver;
        let neighbors = &self.nodes[from as usize].neighbors;
        let len = neighbors.len();
        if len > 0 {
            let rnd = random_below(len);
            let id = neighbors[rnd].id;
            proof {
                assert((self.nodes@[from as int].neighbors@[rnd as int]).id == id);
            }
            Some(id)
        } else {
            None
        }
    }
}

} // verus!
