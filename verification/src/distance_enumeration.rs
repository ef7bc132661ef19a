//! Distance enumeration: every node starts with a random number and tries to
//! learn the hop distance to the node carrying the largest number, replacing
//! its record whenever a larger value arrives; convergence only, no routing.

use crate::graph::{Link, ID};
use crate::rng::random_u32;
use crate::sim::{Io, RoutingAlgorithm, TestPacket};
use crate::utils::{str_eq, u64_to_string};
use vstd::prelude::*;
use vstd::string::StringExecFns;

verus! {

/// Every recorded hop distance leaves room for one more hop.
pub open spec fn hops_have_room(nodes: Seq<Node>) -> bool {
    forall|i: int| 0 <= i < nodes.len() ==> (#[trigger] nodes[i]).hops < 0xffff_ffffu32
}

/// Per-node state: the largest value observed and the hop distance to where
/// it came from.
#[derive(Clone, Copy)]
pub struct Node {
    pub num: u32,
    pub hops: u32,
}

impl Node {
    /// Adopt a strictly larger value together with its hop distance.
    fn update(&mut self, num: u32, hops: u32)
        ensures
            *final(self) == if num > old(self).num {
                (Node { num, hops })
            } else {
                *old(self)
            },
    {
        if num > self.num {
            self.num = num;
            self.hops = hops;
        }
    }
}

/// The distance-enumeration variant over all nodes.
pub struct DistanceEnumeration {
    pub nodes: Vec<Node>,
}

impl DistanceEnumeration {
    pub fn new() -> (r: DistanceEnumeration)
        ensures
            r.node_len() == 0,
    {
        DistanceEnumeration { nodes: Vec::new() }
    }
}

impl RoutingAlgorithm for DistanceEnumeration {
    open spec fn wf(&self) -> bool {
        true
    }

    open spec fn node_len(&self) -> int {
        self.nodes@.len() as int
    }

    /// The recorded hop distances must leave room for one more hop.
    open spec fn can_step(&self) -> bool {
        hops_have_room(self.nodes@)
    }

    open spec fn aged_ok(&self) -> bool {
        true
    }

    /// One round offers every node each sender's start-of-round record, one
    /// hop further away; a node adopts a record only for a strictly larger
    /// value, so values never drop and every change traces to some link.
    open spec fn step_rel(pre: Self, post: Self, links: Seq<Link>) -> bool {
        &&& post.nodes@.len() == pre.nodes@.len()
        &&& forall|i: int|
            0 <= i < post.nodes@.len() ==> (#[trigger] post.nodes@[i]).num >= pre.nodes@[i].num
        &&& forall|k: int|
            0 <= k < links.len() && ((#[trigger] links[k]).to as int) < post.nodes@.len() && (
            links[k].from as int) < post.nodes@.len() ==> post.nodes@[links[k].to as int].num
                >= pre.nodes@[links[k].from as int].num
        &&& forall|i: int|
            0 <= i < post.nodes@.len() ==> ((#[trigger] post.nodes@[i]) == pre.nodes@[i] || exists|
                k: int,
            |
                0 <= k < links.len() && ((#[trigger] links[k]).to as int) == i && (links[k].from
                    as int) < pre.nodes@.len() && post.nodes@[i] == (Node {
                    num: pre.nodes@[links[k].from as int].num,
                    hops: (pre.nodes@[links[k].from as int].hops + 1) as u32,
                }))
    }

    open spec fn route_ok(&self, packet: TestPacket, r: Option<ID>) -> bool {
        r is None
    }

    open spec fn knows_key(&self, key: Seq<char>) -> bool {
        false
    }

    fn get(&self, key: &str) -> String {
        if str_eq(key, "name") {
            String::from_str("Distance Enumeration")
        } else if str_eq(key, "description") {
            String::from_str(
                "Every node selects a random number and measures its hop distance to the node with the largest number.",
            )
        } else {
            String::new()
        }
    }

    fn get_node(&self, id: ID, key: &str) -> String {
        let node = &self.nodes[id as usize];
        if str_eq(key, "name") {
            u64_to_string(node.num as u64)
        } else if str_eq(key, "label") {
            u64_to_string(node.hops as u64)
        } else {
            String::new()
        }
    }

    fn set(&mut self, key: &str, value: &str) -> (known: bool) {
        false
    }

    /// Reallocate and assign fresh random numbers at hop distance zero.
    fn reset(&mut self, len: usize)
        ensures
            final(self).nodes@.len() == len,
            forall|i: int| 0 <= i < len ==> (#[trigger] final(self).nodes@[i]).hops == 0,
    {
        let mut nodes: Vec<Node> = Vec::new();
        let mut i: usize = 0;
        while i < len
            invariant
                i <= len,
                nodes@.len() == i,
                forall|k: int| 0 <= k < i ==> (#[trigger] nodes@[k]).hops == 0,
            decreases len - i,
        {
            nodes.push(Node { num: random_u32(), hops: 0 });
            i += 1;
        }
        self.nodes = nodes;
    }

    /// Each node compares the values sent to it this round — the values as of
    /// the start of the round, one hop further away — with its record.
    fn step(&mut self, io: &Io) {
        let ghost n = self.nodes@.len() as int;
        let ghost pre = *self;
        // the records as of the start of the round
        let mut sent: Vec<Node> = Vec::new();
        let mut i: usize = 0;
        while i < self.nodes.len()
            invariant
                *self == pre,
                self.nodes@.len() == n,
                i <= n,
                sent@.len() == i,
                forall|k: int| 0 <= k < i ==> #[trigger] sent@[k] == self.nodes@[k],
            decreases n - i,
        {
            sent.push(self.nodes[i]);
            i += 1;
        }
        proof {
            assert forall|k: int| 0 <= k < n implies (#[trigger] sent@[k]).hops
                < 0xffff_ffffu32 by {
                assert(sent@[k] == self.nodes@[k]);
            }
        }
        let mut iter = io.link_iter();
        loop
            invariant
                io.wf(),
                iter.graph == io.graph,
                io.node_count_spec() == n,
                self.nodes@.len() == n,
                sent@.len() == n,
                pre.nodes@.len() == n,
                iter.idx <= iter.graph.links@.len(),
                forall|k: int| 0 <= k < n ==> #[trigger] sent@[k] == pre.nodes@[k],
                forall|k: int| 0 <= k < n ==> (#[trigger] sent@[k]).hops < 0xffff_ffffu32,
                forall|i2: int|
                    0 <= i2 < n ==> (#[trigger] self.nodes@[i2]).num >= pre.nodes@[i2].num,
                forall|k: int|
                    0 <= k < iter.idx && ((#[trigger] iter.graph.links@[k]).to as int) < n && (
                    iter.graph.links@[k].from as int) < n ==> self.nodes@[iter.graph.links@[k].to
                        as int].num >= pre.nodes@[iter.graph.links@[k].from as int].num,
                forall|i2: int|
                    0 <= i2 < n ==> ((#[trigger] self.nodes@[i2]) == pre.nodes@[i2] || exists|
                        k: int,
                    |
                        0 <= k < iter.idx && ((#[trigger] iter.graph.links@[k]).to as int) == i2
                            && (iter.graph.links@[k].from as int) < n && self.nodes@[i2] == (Node {
                            num: pre.nodes@[iter.graph.links@[k].from as int].num,
                            hops: (pre.nodes@[iter.graph.links@[k].from as int].hops + 1) as u32,
                        })),
            ensures
                iter.idx == iter.graph.links@.len(),
            decreases iter.graph.links@.len() - iter.idx,
        {
            let pair = match iter.next() {
                Some(p) => p,
                None => {
                    break ;
                },
            };
            let (from, to) = pair;
            let ghost before = self.nodes@;
            let num = sent[from as usize].num;
            let hops = sent[from as usize].hops;
            let dst = &mut self.nodes[to as usize];
            dst.update(num, hops + 1);
            proof {
                let k = iter.idx as int - 1;
                let links = iter.graph.links@;
                assert forall|i2: int|
                    0 <= i2 < n implies ((#[trigger] self.nodes@[i2]) == pre.nodes@[i2] || exists|
                    k2: int,
                |
                    0 <= k2 < iter.idx && ((#[trigger] links[k2]).to as int) == i2 && (links[k2].from
                        as int) < n && self.nodes@[i2] == (Node {
                        num: pre.nodes@[links[k2].from as int].num,
                        hops: (pre.nodes@[links[k2].from as int].hops + 1) as u32,
                    })) by {
                    if i2 == links[k].to as int && self.nodes@[i2] != before[i2] {
                        assert(((links[k]).to as int) == i2 && (links[k].from as int) < n
                            && self.nodes@[i2] == (Node {
                            num: pre.nodes@[links[k].from as int].num,
                            hops: (pre.nodes@[links[k].from as int].hops + 1) as u32,
                        }));
                    } else {
                        assert(self.nodes@[i2] == before[i2]);
                        if before[i2] != pre.nodes@[i2] {
                            let k2 = choose|k2: int|
                                0 <= k2 < k && ((#[trigger] links[k2]).to as int) == i2 && (
                                links[k2].from as int) < n && before[i2] == (Node {
                                    num: pre.nodes@[links[k2].from as int].num,
                                    hops: (pre.nodes@[links[k2].from as int].hops + 1) as u32,
                                });
                            assert(0 <= k2 < iter.idx && ((links[k2]).to as int) == i2);
                        }
                    }
                }
            }
        }
    }

    fn route(&self, packet: &TestPacket) -> Option<ID> {
        None
    }
}

} // verus!
