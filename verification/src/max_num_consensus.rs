//! Maximum-value consensus: every node starts with a random number and keeps
//! the maximum it has ever observed; convergence only, no routing.

use crate::graph::{Link, ID};
use crate::rng::random_u32;
use crate::sim::{Io, RoutingAlgorithm, TestPacket};
use crate::utils::{str_eq, u64_to_string};
use vstd::prelude::*;
use vstd::string::StringExecFns;

verus! {

/// Per-node state: the largest value observed so far.
#[derive(Clone, Copy)]
pub struct Node {
    pub num: u32,
}

impl Node {
    fn new() -> (r: Node)
        ensures
            r.num == 0,
    {
        Node { num: 0 }
    }

    /// Keep the maximum of the stored and the observed value.
    fn update(&mut self, num: u32)
        ensures
            final(self).num == if num > old(self).num {
                num
            } else {
                old(self).num
            },
    {
        if num > self.num {
            self.num = num;
        }
    }
}

/// The consensus variant over all nodes.
pub struct MaxNumConsensus {
    pub nodes: Vec<Node>,
}

impl MaxNumConsensus {
    pub fn new() -> (r: MaxNumConsensus)
        ensures
            r.node_len() == 0,
    {
        MaxNumConsensus { nodes: Vec::new() }
    }
}

impl RoutingAlgorithm for MaxNumConsensus {
    open spec fn wf(&self) -> bool {
        true
    }

    open spec fn node_len(&self) -> int {
        self.nodes@.len() as int
    }

    open spec fn can_step(&self) -> bool {
        true
    }

    open spec fn aged_ok(&self) -> bool {
        true
    }

    /// One round makes every node's value the maximum of its own and all
    /// values sent to it, the sent values being those from the start of the
    /// round.
    open spec fn step_rel(pre: Self, post: Self, links: Seq<Link>) -> bool {
        &&& post.nodes@.len() == pre.nodes@.len()
        &&& forall|i: int|
            0 <= i < post.nodes@.len() ==> (#[trigger] post.nodes@[i]).num >= pre.nodes@[i].num
        &&& forall|k: int|
            0 <= k < links.len() && ((#[trigger] links[k]).to as int) < post.nodes@.len() && (
            links[k].from as int) < post.nodes@.len() ==> post.nodes@[links[k].to as int].num
                >= pre.nodes@[links[k].from as int].num
        &&& forall|i: int|
            0 <= i < post.nodes@.len() ==> ((#[trigger] post.nodes@[i]).num == pre.nodes@[i].num
                || exists|k: int|
                0 <= k < links.len() && ((#[trigger] links[k]).to as int) == i && (links[k].from
                    as int) < pre.nodes@.len() && post.nodes@[i].num == pre.nodes@[links[k].from
                    as int].num)
    }

    open spec fn route_ok(&self, packet: TestPacket, r: Option<ID>) -> bool {
        r is None
    }

    open spec fn knows_key(&self, key: Seq<char>) -> bool {
        false
    }

    fn get(&self, key: &str) -> String {
        if str_eq(key, "name") {
            String::from_str("Maximum Number Consensus")
        } else {
            String::new()
        }
    }

    fn get_node(&self, id: ID, key: &str) -> String {
        if str_eq(key, "name") {
            let node = &self.nodes[id as usize];
            let mut out = u64_to_string(id as u64);
            out.append(" (");
            out.append(u64_to_string(node.num as u64).as_str());
            out.append(")");
            out
        } else {
            String::new()
        }
    }

    fn set(&mut self, key: &str, value: &str) -> (known: bool) {
        false
    }

    /// Reallocate and assign fresh random numbers.
    fn reset(&mut self, len: usize) {
        let mut nodes: Vec<Node> = Vec::new();
        let mut i: usize = 0;
        while i < len
            invariant
                i <= len,
                nodes@.len() == i,
            decreases len - i,
        {
            nodes.push(Node { num: random_u32() });
            i += 1;
        }
        self.nodes = nodes;
    }

    /// Each node adopts the maximum of its own value and every value sent to
    /// it this round; the sent values are the ones from the start of the
    /// round.
    fn step(&mut self, io: &Io) {
        let ghost n = self.nodes@.len() as int;
        let ghost pre = *self;
        // the values as of the start of the round
        let mut sent: Vec<u32> = Vec::new();
        let mut i: usize = 0;
        while i < self.nodes.len()
            invariant
                *self == pre,
                self.nodes@.len() == n,
                i <= n,
                sent@.len() == i,
                forall|k: int| 0 <= k < i ==> #[trigger] sent@[k] == self.nodes@[k].num,
            decreases n - i,
        {
            sent.push(self.nodes[i].num);
            i += 1;
        }
        let mut iter = io.link_iter();
        loop
            invariant
                io.wf(),
                iter.graph == io.graph,
                io.node_count_spec() == n,
                self.nodes@.len() == n,
                sent@.len() == n,
                pre.nodes@.len() == n,
                iter.idx <= iter.graph.links@.len(),
                forall|k: int| 0 <= k < n ==> #[trigger] sent@[k] == pre.nodes@[k].num,
                forall|i2: int|
                    0 <= i2 < n ==> (#[trigger] self.nodes@[i2]).num >= pre.nodes@[i2].num,
                forall|k: int|
                    0 <= k < iter.idx && ((#[trigger] iter.graph.links@[k]).to as int) < n && (
                    iter.graph.links@[k].from as int) < n ==> self.nodes@[iter.graph.links@[k].to
                        as int].num >= pre.nodes@[iter.graph.links@[k].from as int].num,
                forall|i2: int|
                    0 <= i2 < n ==> ((#[trigger] self.nodes@[i2]).num == pre.nodes@[i2].num
                        || exists|k: int|
                        0 <= k < iter.idx && ((#[trigger] iter.graph.links@[k]).to as int) == i2
                            && (iter.graph.links@[k].from as int) < n && self.nodes@[i2].num
                            == pre.nodes@[iter.graph.links@[k].from as int].num),
            ensures
                iter.idx == iter.graph.links@.len(),
            decreases iter.graph.links@.len() - iter.idx,
        {
            let pair = match iter.next() {
                Some(p) => p,
                None => {
                    break ;
                },
            };
            let (from, to) = pair;
            let ghost before = self.nodes@;
            let num = sent[from as usize];
            let dst = &mut self.nodes[to as usize];
            dst.update(num);
            proof {
                lemma_consensus_round_step(
                    pre.nodes@,
                    before,
                    self.nodes@,
                    iter.graph.links@,
                    iter.idx as int - 1,
                );
            }
        }
    }

    fn route(&self, packet: &TestPacket) -> Option<ID> {
        None
    }
}

/// Working one link's value into the receiver keeps the round's running
/// account: values never drop, every delivered value is covered, and every
/// change traces to some delivered link.
proof fn lemma_consensus_round_step(
    pre: Seq<Node>,
    before: Seq<Node>,
    after: Seq<Node>,
    links: Seq<Link>,
    k: int,
)
    requires
        pre.len() == before.len(),
        before.len() == after.len(),
        0 <= k < links.len(),
        (links[k].to as int) < before.len(),
        (links[k].from as int) < before.len(),
        after == before.update(
            links[k].to as int,
            if pre[links[k].from as int].num > before[links[k].to as int].num {
                (Node { num: pre[links[k].from as int].num })
            } else {
                before[links[k].to as int]
            },
        ),
        forall|i2: int| 0 <= i2 < before.len() ==> (#[trigger] before[i2]).num >= pre[i2].num,
        forall|k2: int|
            0 <= k2 < k && ((#[trigger] links[k2]).to as int) < before.len() && (links[k2].from
                as int) < before.len() ==> before[links[k2].to as int].num >= pre[links[k2].from
                as int].num,
        forall|i2: int|
            0 <= i2 < before.len() ==> ((#[trigger] before[i2]).num == pre[i2].num || exists|
                k2: int,
            |
                0 <= k2 < k && ((#[trigger] links[k2]).to as int) == i2 && (links[k2].from as int)
                    < pre.len() && before[i2].num == pre[links[k2].from as int].num),
    ensures
        forall|i2: int| 0 <= i2 < after.len() ==> (#[trigger] after[i2]).num >= pre[i2].num,
        forall|k2: int|
            0 <= k2 < k + 1 && ((#[trigger] links[k2]).to as int) < after.len() && (links[k2].from
                as int) < after.len() ==> after[links[k2].to as int].num >= pre[links[k2].from
                as int].num,
        forall|i2: int|
            0 <= i2 < after.len() ==> ((#[trigger] after[i2]).num == pre[i2].num || exists|k2: int|
                0 <= k2 < k + 1 && ((#[trigger] links[k2]).to as int) == i2 && (links[k2].from
                    as int) < pre.len() && after[i2].num == pre[links[k2].from as int].num),
{
    let to = links[k].to as int;
    assert forall|i2: int| 0 <= i2 < after.len() implies ((#[trigger] after[i2]).num == pre[i2].num
        || exists|k2: int|
        0 <= k2 < k + 1 && ((#[trigger] links[k2]).to as int) == i2 && (links[k2].from as int)
            < pre.len() && after[i2].num == pre[links[k2].from as int].num) by {
        if i2 == to && after[i2].num != before[i2].num {
            assert(0 <= k < k + 1 && ((links[k]).to as int) == i2 && (links[k].from as int)
                < pre.len() && after[i2].num == pre[links[k].from as int].num);
        } else {
            assert(after[i2] == before[i2]);
            if before[i2].num != pre[i2].num {
                let k2 = choose|k2: int|
                    0 <= k2 < k && ((#[trigger] links[k2]).to as int) == i2 && (links[k2].from
                        as int) < pre.len() && before[i2].num == pre[links[k2].from as int].num;
                assert(0 <= k2 < k + 1 && ((links[k2]).to as int) == i2);
            }
        }
    }
}

} // verus!
