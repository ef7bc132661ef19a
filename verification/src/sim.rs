//! The round-based simulation surface: a read-only per-round view over the
//! graph, the ephemeral test packet, and the shared contract that every
//! routing algorithm variant implements.

use crate::graph::{Graph, Link, ID};
use vstd::prelude::*;

verus! {

/// An ephemeral test packet. Transmitter and receiver are the one-hop
/// endpoints, source and destination the multi-hop endpoints; the receiver is
/// the node currently deciding. Used only for routing queries, never stored.
#[derive(Clone, Copy, PartialEq, Eq, Structural, Debug)]
pub struct TestPacket {
    pub transmitter: ID,
    pub receiver: ID,
    pub source: ID,
    pub destination: ID,
}

impl TestPacket {
    pub fn new(transmitter: ID, receiver: ID, source: ID, destination: ID) -> (r: TestPacket)
        ensures
            r == (TestPacket { transmitter, receiver, source, destination }),
    {
        TestPacket { transmitter, receiver, source, destination }
    }
}

/// Read-only view over the current graph for one simulation round. During a
/// round, every directed link carries exactly one unit of information from
/// its `from` end to its `to` end, in the sorted, deterministic order of the
/// link list; there is no finer notion of simultaneity.
pub struct Io<'a> {
    pub graph: &'a Graph,
}

impl<'a> Io<'a> {
    pub open spec fn wf(&self) -> bool {
        self.graph.wf()
    }

    /// The links carried this round, in their deterministic order.
    pub open spec fn links(&self) -> Seq<Link> {
        self.graph.links@
    }

    pub open spec fn node_count_spec(&self) -> int {
        self.graph.node_count as int
    }

    pub fn new(graph: &'a Graph) -> (r: Io<'a>)
        ensures
            r.graph == graph,
    {
        Io { graph }
    }

    /// Enumerator over every directed link of the round, in order.
    pub fn link_iter(&self) -> (r: IoIterator<'a>)
        ensures
            r.graph == self.graph,
            r.idx == 0,
    {
        IoIterator::new(self.graph)
    }

    pub fn nodes_count(&self) -> (r: usize)
        ensures
            r as int == self.node_count_spec(),
    {
        self.graph.node_count()
    }

    /// The links leaving `id` this round.
    pub fn node_links(&self, id: ID) -> (r: &[Link])
        requires
            self.wf(),
        ensures
            forall|i: int| 0 <= i < r@.len() ==> (#[trigger] r@[i]).from == id
                && self.links().contains(r@[i]),
            exists|start: int|
                {
                    &&& 0 <= start
                    &&& start + r@.len() <= self.links().len()
                    &&& r@ == #[trigger] self.links().subrange(start, start + r@.len())
                    &&& forall|k: int| 0 <= k < self.links().len() ==> ((
                    #[trigger] self.links()[k]).from == id <==> start <= k < start + r@.len())
                },
    {
        let r = self.graph.get_neighbors(id);
        proof {
            let start = choose|start: int|
                {
                    &&& 0 <= start
                    &&& start + r@.len() <= self.graph.links@.len()
                    &&& r@ == #[trigger] self.graph.links@.subrange(start, start + r@.len())
                    &&& forall|k: int|
                        0 <= k < self.graph.links@.len() ==> ((#[trigger] self.graph.links@[k]).from
                            == id <==> start <= k < start + r@.len())
                };
            assert(r@ == self.links().subrange(start, start + r@.len()));
        }
        r
    }
}

/// Walks the link list of one round from front to back.
pub struct IoIterator<'a> {
    pub graph: &'a Graph,
    pub idx: usize,
}

impl<'a> IoIterator<'a> {
    fn new(graph: &'a Graph) -> (r: IoIterator<'a>)
        ensures
            r.graph == graph,
            r.idx == 0,
    {
        IoIterator { graph, idx: 0 }
    }

    /// The endpoints of the next link, in stored order; `None` past the end.
    pub fn next(&mut self) -> (r: Option<(ID, ID)>)
        ensures
            final(self).graph == old(self).graph,
            match r {
                Some(pair) => old(self).idx < old(self).graph.links@.len() && final(self).idx
                    == old(self).idx + 1 && pair.0 == old(self).graph.links@[old(self).idx
                    as int].from && pair.1 == old(self).graph.links@[old(self).idx as int].to,
                None => old(self).idx >= old(self).graph.links@.len() && final(self).idx == old(
                    self,
                ).idx,
            },
    {
        if self.idx < self.graph.link_count() {
            let link = self.graph.links[self.idx];
            self.idx += 1;
            Some((link.from, link.to))
        } else {
            None
        }
    }
}

/// The shared surface of every routing algorithm variant: reallocate per-node
/// state with `reset`, advance one synchronous exchange per current link with
/// `step`, answer a stateless next-hop query with `route`, and expose named
/// tunables through `get` and `set`. Unknown keys are reported by empty
/// output or a `false` result, never as errors.
pub trait RoutingAlgorithm: Sized {
    /// The per-node state is consistently shaped.
    spec fn wf(&self) -> bool;

    /// How many nodes the state is allocated for.
    spec fn node_len(&self) -> int;

    /// Whether one more round fits the variant's round counter.
    spec fn can_step(&self) -> bool;

    /// The aging guarantee: every neighbor-table entry was refreshed within
    /// the five-round horizon. Variants without tables state `true`.
    spec fn aged_ok(&self) -> bool;

    /// What one round does to the state, given the links it carried: each
    /// variant pins its exchange rule here, so a `step` that exchanges
    /// nothing cannot meet its contract.
    spec fn step_rel(pre: Self, post: Self, links: Seq<Link>) -> bool;

    /// What a route answer means against the current state: each variant
    /// pins its next-hop rule here.
    spec fn route_ok(&self, packet: TestPacket, r: Option<ID>) -> bool;

    /// The tunable keys this variant recognizes.
    spec fn knows_key(&self, key: Seq<char>) -> bool;

    /// Human-readable value of a named property; empty for unknown keys.
    fn get(&self, key: &str) -> String;

    /// Per-node introspection value; empty for unknown keys. Carries no
    /// semantic weight inside the core.
    fn get_node(&self, id: ID, key: &str) -> String
        requires
            self.wf(),
            (id as int) < self.node_len(),
    ;

    /// Set a named tunable; `false` reports an unknown key, which leaves the
    /// state untouched.
    fn set(&mut self, key: &str, value: &str) -> (known: bool)
        ensures
            old(self).wf() ==> final(self).wf(),
            final(self).node_len() == old(self).node_len(),
            old(self).can_step() ==> final(self).can_step(),
            known == old(self).knows_key(key@),
            !known ==> *final(self) == *old(self),
    ;

    /// Fully reallocate the per-node state for `len` nodes; idempotent, and
    /// required whenever the topology size changes.
    fn reset(&mut self, len: usize)
        ensures
            final(self).wf(),
            final(self).node_len() == len as int,
            final(self).can_step(),
    ;

    /// Advance every node's state by exactly one synchronous exchange over
    /// every current link, sending values computed from the state as of the
    /// start of the round.
    fn step(&mut self, io: &Io)
        requires
            old(self).wf(),
            old(self).can_step(),
            io.wf(),
            io.node_count_spec() == old(self).node_len(),
        ensures
            final(self).wf(),
            final(self).node_len() == old(self).node_len(),
            final(self).aged_ok(),
            Self::step_rel(*old(self), *final(self), io.links()),
    ;

    /// Next hop for the packet, or `None` when no usable neighbor is known.
    /// A pure query of the current state; it never mutates.
    fn route(&self, packet: &TestPacket) -> (r: Option<ID>)
        requires
            self.wf(),
            (packet.receiver as int) < self.node_len(),
            (packet.destination as int) < self.node_len(),
        ensures
            self.route_ok(*packet, r),
    ;
}

} // verus!
