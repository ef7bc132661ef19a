//! Distance-vector routing: every node keeps a table of (destination, next
//! hop, hop count, last refresh round). Once per round each node advertises
//! itself and the routes it refreshed last round; a neighbor accepts a
//! re-advertised route only if its hop count does not exceed the stored one.
//! Entries silent for more than the five-round aging horizon are dropped.

use crate::graph::{Link, ID};
use crate::sim::{Io, RoutingAlgorithm, TestPacket};
use crate::utils::{str_eq, u64_to_string, vec_filter};
use vstd::prelude::*;
use vstd::string::StringExecFns;

verus! {

/// A route advertisement traveling one link: `origin` is reachable in `hops`
/// hops through the sender `from`.
struct Packet {
    from: ID,
    to: ID,
    origin: ID,
    hops: u32,
}

impl Packet {
    fn new(from: ID, to: ID, origin: ID, hops: u32) -> (r: Packet)
        ensures
            r.from == from && r.to == to && r.origin == origin && r.hops == hops,
    {
        Packet { from, to, origin, hops }
    }
}

/// Some table entry names this destination with this refresh stamp.
pub open spec fn knows_route(entries: Seq<Entry>, origin: ID, time: u32) -> bool {
    exists|i: int|
        0 <= i < entries.len() && (#[trigger] entries[i]).id == origin && entries[i].last_updated
            == time
}

/// Some table entry names this destination, at whatever stamp.
pub open spec fn knows_destination(entries: Seq<Entry>, origin: ID) -> bool {
    exists|i: int| 0 <= i < entries.len() && (#[trigger] entries[i]).id == origin
}

/// Entries refreshed within the aging horizon all survive into the newer
/// table.
pub open spec fn keeps_fresh(pre_entries: Seq<Entry>, now_entries: Seq<Entry>, time: u32) -> bool {
    forall|e: int|
        0 <= e < pre_entries.len() && ((#[trigger] pre_entries[e]).last_updated as int) + 5
            >= time as int ==> now_entries.contains(pre_entries[e])
}

/// Every route of the sender's start-of-round table that was refreshed last
/// round — except one about the receiver itself, which is dismissed — is
/// afterwards known at the receiver.
pub open spec fn forwards_fresh(src: Seq<Entry>, dst: Seq<Entry>, to: ID, time: u32) -> bool {
    forall|e: int|
        0 <= e < src.len() && ((#[trigger] src[e]).last_updated as int) + 1 == time as int
            && src[e].id != to ==> knows_destination(dst, src[e].id)
}

/// One routing-table entry: destination, next hop toward it, hop count, and
/// the round it was last refreshed.
#[derive(Clone, Copy)]
pub struct Entry {
    pub id: ID,
    pub next: ID,
    pub hops: u32,
    pub last_updated: u32,
}

/// Per-node state: the routing table.
pub struct Node {
    pub entries: Vec<Entry>,
}

impl Node {
    /// Every entry was refreshed within the five-round aging horizon.
    pub open spec fn aged(&self, time: u32) -> bool {
        forall|i: int|
            0 <= i < self.entries@.len() ==> (#[trigger] self.entries@[i]).last_updated as int + 5
                >= time as int
    }

    /// Refresh stamps and hop counts never run ahead of the round counter,
    /// and every stored route is at least one hop long.
    pub open spec fn stamps_le(&self, time: u32) -> bool {
        forall|i: int|
            0 <= i < self.entries@.len() ==> (#[trigger] self.entries@[i]).last_updated <= time
                && self.entries@[i].hops <= time && self.entries@[i].hops >= 1
    }

    fn new() -> (r: Node)
        ensures
            r.entries@.len() == 0,
    {
        Node { entries: Vec::new() }
    }

    /// Drop every entry unrefreshed for more than five rounds.
    fn timeout_entries(&mut self, time: u32)
        ensures
            final(self).aged(time),
            forall|i: int|
                0 <= i < final(self).entries@.len() ==> old(self).entries@.contains(
                    #[trigger] final(self).entries@[i],
                ),
            forall|j: int|
                0 <= j < old(self).entries@.len() && (#[trigger] old(self).entries@[j]).last_updated
                    as int + 5 >= time as int ==> final(self).entries@.contains(
                    old(self).entries@[j],
                ),
    {
        let keep = |e: &Entry| -> (r: bool)
            ensures
                r == ((e.last_updated as int) + 5 >= time as int),
            { (e.last_updated as u64) + 5 >= (time as u64) };
        vec_filter(&mut self.entries, keep);
    }

    /// Direct table lookup: the next hop stored for the packet's destination,
    /// taking the first matching entry.
    pub fn route(&self, packet: &TestPacket) -> (r: Option<ID>)
        ensures
            match r {
                Some(next) => exists|i: int|
                    {
                        &&& 0 <= i < self.entries@.len()
                        &&& (#[trigger] self.entries@[i]).id == packet.destination
                        &&& self.entries@[i].next == next
                        &&& forall|k: int|
                            0 <= k < i ==> (#[trigger] self.entries@[k]).id != packet.destination
                    },
                None => forall|i: int|
                    0 <= i < self.entries@.len() ==> (#[trigger] self.entries@[i]).id
                        != packet.destination,
            },
    {
        let id = packet.destination;
        let mut i: usize = 0;
        while i < self.entries.len()
            invariant
                id == packet.destination,
                i <= self.entries@.len(),
                forall|k: int| 0 <= k < i ==> (#[trigger] self.entries@[k]).id != id,
            decreases self.entries@.len() - i,
        {
            if self.entries[i].id == id {
                let next = self.entries[i].next;
                proof {
                    let wi = i as int;
                    assert(0 <= wi < self.entries@.len() && self.entries@[wi].id
                        == packet.destination && self.entries@[wi].next == next && forall|k: int|
                        0 <= k < wi ==> (#[trigger] self.entries@[k]).id != packet.destination);
                }
                return Some(next);
            }
            i += 1;
        }
        None
    }

    /// Work one advertisement into the table: information about the node
    /// itself is dismissed; a known destination is refreshed — and redirected
    /// — only if the advertised hop count does not exceed the stored one; an
    /// unknown destination is appended.
    fn update_table(&mut self, packet: &Packet, time: u32)
        ensures
            packet.origin == packet.to ==> final(self).entries@ == old(self).entries@,
            packet.origin != packet.to ==> {
                if exists|j: int|
                    0 <= j < old(self).entries@.len() && (#[trigger] old(self).entries@[j]).id
                        == packet.origin {
                    exists|j: int|
                        {
                            &&& 0 <= j < old(self).entries@.len()
                            &&& (#[trigger] old(self).entries@[j]).id == packet.origin
                            &&& forall|k: int|
                                0 <= k < j ==> (#[trigger] old(self).entries@[k]).id
                                    != packet.origin
                            &&& if packet.hops <= old(self).entries@[j].hops {
                                final(self).entries@ == old(self).entries@.update(
                                    j,
                                    Entry {
                                        id: old(self).entries@[j].id,
                                        next: packet.from,
                                        hops: old(self).entries@[j].hops,
                                        last_updated: time,
                                    },
                                )
                            } else {
                                final(self).entries@ == old(self).entries@
                            }
                        }
                } else {
                    final(self).entries@ == old(self).entries@.push(
                        Entry {
                            id: packet.origin,
                            next: packet.from,
                            hops: packet.hops,
                            last_updated: time,
                        },
                    )
                }
            },
            // a one-hop advertisement always leaves the origin freshly known,
            // because stored routes are at least one hop long
            (packet.origin != packet.to && packet.hops == 1 && (forall|i: int|
                0 <= i < old(self).entries@.len() ==> (#[trigger] old(self).entries@[i]).hops >= 1))
                ==> knows_route(final(self).entries@, packet.origin, time),
            // destinations known at this stamp stay known at it
            forall|o: ID| #[trigger] knows_route(old(self).entries@, o, time) ==> knows_route(
                final(self).entries@,
                o,
                time,
            ),
            // the advertised origin is afterwards known, and no known
            // destination is ever forgotten
            packet.origin != packet.to ==> knows_destination(final(self).entries@, packet.origin),
            forall|o: ID| #[trigger] knows_destination(old(self).entries@, o) ==> knows_destination(
                final(self).entries@,
                o,
            ),
    {
        if packet.origin == packet.to {
            proof {
                assert forall|o: ID| #[trigger] knows_route(old(self).entries@, o, time)
                    implies knows_route(self.entries@, o, time) by {}
                assert forall|o: ID| #[trigger] knows_destination(old(self).entries@, o)
                    implies knows_destination(self.entries@, o) by {}
            }
            return ;
        }
        let mut i: usize = 0;
        while i < self.entries.len()
            invariant
                packet.origin != packet.to,
                i <= self.entries@.len(),
                self.entries@ == old(self).entries@,
                forall|k: int| 0 <= k < i ==> (#[trigger] self.entries@[k]).id != packet.origin,
            decreases self.entries@.len() - i,
        {
            if self.entries[i].id == packet.origin {
                let ghost wi = i as int;
                proof {
                    assert(0 <= wi < old(self).entries@.len() && old(self).entries@[wi].id
                        == packet.origin && forall|k: int|
                        0 <= k < wi ==> (#[trigger] old(self).entries@[k]).id != packet.origin);
                }
                if packet.hops <= self.entries[i].hops {
                    let mut e = self.entries[i];
                    e.next = packet.from;
                    e.last_updated = time;
                    self.entries[i] = e;
                    proof {
                        assert(self.entries@ == old(self).entries@.update(
                            wi,
                            Entry {
                                id: old(self).entries@[wi].id,
                                next: packet.from,
                                hops: old(self).entries@[wi].hops,
                                last_updated: time,
                            },
                        ));
                        assert(self.entries@[wi].id == packet.origin && self.entries@[wi].last_updated
                            == time);
                        assert forall|o: ID| #[trigger] knows_route(old(self).entries@, o, time)
                            implies knows_route(self.entries@, o, time) by {
                            let k = choose|k: int|
                                0 <= k < old(self).entries@.len() && (#[trigger] old(
                                    self,
                                ).entries@[k]).id == o && old(self).entries@[k].last_updated
                                    == time;
                            if k != wi {
                                assert(self.entries@[k] == old(self).entries@[k]);
                            }
                        }
                        assert forall|o: ID| #[trigger] knows_destination(old(self).entries@, o)
                            implies knows_destination(self.entries@, o) by {
                            let k = choose|k: int|
                                0 <= k < old(self).entries@.len() && (#[trigger] old(
                                    self,
                                ).entries@[k]).id == o;
                            assert(self.entries@[k].id == o);
                        }
                    }
                } else {
                    proof {
                        assert forall|o: ID| #[trigger] knows_route(old(self).entries@, o, time)
                            implies knows_route(self.entries@, o, time) by {}
                        assert(self.entries@[wi].id == packet.origin);
                    }
                }
                return ;
            }
            i += 1;
        }
        self.entries.push(
            Entry { id: packet.origin, hops: packet.hops, next: packet.from, last_updated: time },
        );
        proof {
            assert(self.entries@.last().id == packet.origin && self.entries@.last().last_updated
                == time);
            assert forall|o: ID| #[trigger] knows_route(old(self).entries@, o, time)
                implies knows_route(self.entries@, o, time) by {
                let k = choose|k: int|
                    0 <= k < old(self).entries@.len() && (#[trigger] old(self).entries@[k]).id == o
                        && old(self).entries@[k].last_updated == time;
                assert(self.entries@[k] == old(self).entries@[k]);
            }
            assert forall|o: ID| #[trigger] knows_destination(old(self).entries@, o)
                implies knows_destination(self.entries@, o) by {
                let k = choose|k: int|
                    0 <= k < old(self).entries@.len() && (#[trigger] old(self).entries@[k]).id == o;
                assert(self.entries@[k].id == o);
            }
        }
    }
}

/// The distance-vector algorithm over all nodes.
pub struct DistanceVectorRouting {
    pub nodes: Vec<Node>,
    pub time: u32,
}

impl DistanceVectorRouting {
    pub fn new() -> (r: DistanceVectorRouting)
        ensures
            r.wf(),
            r.node_len() == 0,
            r.can_step(),
    {
        DistanceVectorRouting { nodes: Vec::new(), time: 0 }
    }
}

impl RoutingAlgorithm for DistanceVectorRouting {
    /// Every table's stamps and hop counts stay within the round counter.
    open spec fn wf(&self) -> bool {
        forall|i: int|
            0 <= i < self.nodes@.len() ==> (#[trigger] self.nodes@[i]).stamps_le(self.time)
    }

    open spec fn node_len(&self) -> int {
        self.nodes@.len() as int
    }

    open spec fn can_step(&self) -> bool {
        (self.time as int) < 0xffff_ffff
    }

    /// Every routing-table entry was refreshed within the last five rounds.
    open spec fn aged_ok(&self) -> bool {
        forall|i: int| 0 <= i < self.nodes@.len() ==> (#[trigger] self.nodes@[i]).aged(self.time)
    }

    /// One round advances the counter and, for every delivered link, leaves a
    /// freshly stamped route to its sender at its receiver and forwards the
    /// sender's start-of-round routes refreshed last round.
    open spec fn step_rel(pre: Self, post: Self, links: Seq<Link>) -> bool {
        &&& post.nodes@.len() == pre.nodes@.len()
        &&& post.time as int == pre.time as int + 1
        &&& forall|k: int|
            0 <= k < links.len() && (#[trigger] links[k]).from != links[k].to && ((links[k].to
                as int) < post.nodes@.len()) ==> knows_route(
                post.nodes@[links[k].to as int].entries@,
                links[k].from,
                post.time,
            )
        &&& forall|k: int|
            0 <= k < links.len() && (#[trigger] links[k]).from != links[k].to && ((links[k].to
                as int) < post.nodes@.len()) && ((links[k].from as int) < pre.nodes@.len())
                ==> forwards_fresh(
                pre.nodes@[links[k].from as int].entries@,
                post.nodes@[links[k].to as int].entries@,
                links[k].to,
                post.time,
            )
    }

    /// A direct table lookup: the first entry for the destination decides.
    open spec fn route_ok(&self, packet: TestPacket, r: Option<ID>) -> bool {
        let entries = self.nodes@[packet.receiver as int].entries@;
        match r {
            Some(next) => exists|i: int|
                {
                    &&& 0 <= i < entries.len()
                    &&& (#[trigger] entries[i]).id == packet.destination
                    &&& entries[i].next == next
                    &&& forall|k: int|
                        0 <= k < i ==> (#[trigger] entries[k]).id != packet.destination
                },
            None => forall|i: int|
                0 <= i < entries.len() ==> (#[trigger] entries[i]).id != packet.destination,
        }
    }

    open spec fn knows_key(&self, key: Seq<char>) -> bool {
        false
    }

    fn get(&self, key: &str) -> String {
        if str_eq(key, "name") {
            String::from_str("Distance Vector Algorithm")
        } else {
            String::new()
        }
    }

    fn get_node(&self, id: ID, key: &str) -> String {
        if str_eq(key, "name") {
            let node = &self.nodes[id as usize];
            let mut out = u64_to_string(id as u64);
            out.append(" (");
            out.append(u64_to_string(node.entries.len() as u64).as_str());
            out.append(")");
            out
        } else {
            String::new()
        }
    }

    fn set(&mut self, key: &str, value: &str) -> (known: bool) {
        false
    }

    /// Full reallocation: empty tables, round counter zero.
    fn reset(&mut self, len: usize)
        ensures
            final(self).time == 0,
            final(self).nodes@.len() == len,
            forall|i: int| 0 <= i < len ==> (#[trigger] final(self).nodes@[i]).entries@.len() == 0,
    {
        let mut nodes: Vec<Node> = Vec::new();
        let mut i: usize = 0;
        while i < len
            invariant
                i <= len,
                nodes@.len() == i,
                forall|k: int| 0 <= k < i ==> (#[trigger] nodes@[k]).entries@.len() == 0,
            decreases len - i,
        {
            nodes.push(Node::new());
            i += 1;
        }
        self.nodes = nodes;
        self.time = 0;
    }

    fn step(&mut self, io: &Io) {
        let ghost n = self.nodes@.len() as int;
        let ghost pre = *self;
        self.time += 1;
        let time = self.time;

        // fade out old entries
        let mut i: usize = 0;
        while i < self.nodes.len()
            invariant
                self.nodes@.len() == n,
                pre.nodes@.len() == n,
                time == self.time,
                i <= n,
                time >= 1,
                forall|k: int| i <= k < n ==> #[trigger] self.nodes@[k] == pre.nodes@[k],
                forall|k: int| 0 <= k < i ==> (#[trigger] self.nodes@[k]).aged(time),
                forall|k: int|
                    0 <= k < i ==> keeps_fresh(
                        pre.nodes@[k].entries@,
                        (#[trigger] self.nodes@[k]).entries@,
                        time,
                    ),
                forall|k: int| 0 <= k < n ==> (#[trigger] self.nodes@[k]).stamps_le(
                    (time - 1) as u32,
                ),
            decreases n - i,
        {
            let ghost node0 = self.nodes@[i as int];
            let node = &mut self.nodes[i];
            node.timeout_entries(time);
            proof {
                assert forall|e: int| 0 <= e < self.nodes@[i as int].entries@.len() implies {
                    &&& (#[trigger] self.nodes@[i as int].entries@[e]).last_updated as int <= time
                        - 1
                    &&& self.nodes@[i as int].entries@[e].hops as int <= time - 1
                } by {
                    assert(node0.entries@.contains(self.nodes@[i as int].entries@[e]));
                    let k = choose|k: int|
                        0 <= k < node0.entries@.len() && node0.entries@[k] == self.nodes@[i
                            as int].entries@[e];
                }
            }
            i += 1;
        }

        // the information every node will send: its table as of the start of
        // the round, taken before any table changes
        let mut snapshot: Vec<Vec<Entry>> = Vec::new();
        let mut i2: usize = 0;
        while i2 < self.nodes.len()
            invariant
                self.nodes@.len() == n,
                pre.nodes@.len() == n,
                time >= 1,
                i2 <= n,
                snapshot@.len() == i2,
                forall|k: int| 0 <= k < n ==> (#[trigger] self.nodes@[k]).aged(time),
                forall|k: int|
                    0 <= k < n ==> keeps_fresh(
                        pre.nodes@[k].entries@,
                        (#[trigger] self.nodes@[k]).entries@,
                        time,
                    ),
                forall|k: int| 0 <= k < n ==> (#[trigger] self.nodes@[k]).stamps_le(
                    (time - 1) as u32,
                ),
                forall|k: int| 0 <= k < i2 ==> (#[trigger] snapshot@[k])@ == self.nodes@[k].entries@,
            decreases n - i2,
        {
            let node_entries = &self.nodes[i2].entries;
            let mut copy: Vec<Entry> = Vec::new();
            let mut j: usize = 0;
            while j < node_entries.len()
                invariant
                    j <= node_entries@.len(),
                    copy@ == node_entries@.subrange(0, j as int),
                decreases node_entries@.len() - j,
            {
                copy.push(node_entries[j]);
                proof {
                    assert(copy@ =~= node_entries@.subrange(0, j as int + 1));
                }
                j += 1;
            }
            proof {
                assert(copy@ =~= node_entries@);
            }
            snapshot.push(copy);
            i2 += 1;
        }

        // for each link, send the node's own reachability and the routes it
        // refreshed last round
        let mut iter = io.link_iter();
        loop
            invariant
                io.wf(),
                iter.graph == io.graph,
                io.node_count_spec() == n,
                self.nodes@.len() == n,
                time == self.time,
                time >= 1,
                time as int == pre.time as int + 1,
                iter.idx <= iter.graph.links@.len(),
                snapshot@.len() == n,
                forall|k: int| 0 <= k < n ==> (#[trigger] self.nodes@[k]).aged(time),
                forall|k: int| 0 <= k < n ==> (#[trigger] self.nodes@[k]).stamps_le(time),
                pre.nodes@.len() == n,
                forall|k: int|
                    0 <= k < n ==> forall|e: int|
                        0 <= e < (#[trigger] snapshot@[k])@.len() ==> ((
                        #[trigger] snapshot@[k]@[e]).last_updated as int <= time as int - 1
                            && snapshot@[k]@[e].hops as int <= time as int - 1),
                forall|k: int|
                    0 <= k < n ==> keeps_fresh(
                        pre.nodes@[k].entries@,
                        (#[trigger] snapshot@[k])@,
                        time,
                    ),
                forall|k: int|
                    0 <= k < iter.idx && (#[trigger] iter.graph.links@[k]).from
                        != iter.graph.links@[k].to && ((iter.graph.links@[k].to as int) < n)
                        ==> knows_route(
                        self.nodes@[iter.graph.links@[k].to as int].entries@,
                        iter.graph.links@[k].from,
                        time,
                    ),
                forall|k: int|
                    0 <= k < iter.idx && (#[trigger] iter.graph.links@[k]).from
                        != iter.graph.links@[k].to && ((iter.graph.links@[k].to as int) < n) && ((
                    iter.graph.links@[k].from as int) < n) ==> forwards_fresh(
                        pre.nodes@[iter.graph.links@[k].from as int].entries@,
                        self.nodes@[iter.graph.links@[k].to as int].entries@,
                        iter.graph.links@[k].to,
                        time,
                    ),
            ensures
                iter.idx == iter.graph.links@.len(),
            decreases iter.graph.links@.len() - iter.idx,
        {
            let pair = match iter.next() {
                Some(p) => p,
                None => {
                    break ;
                },
            };
            let (from, to) = pair;
            proof {
                assert(io.graph.wf());
            }
            // send own info to the neighbor
            let p = Packet::new(from, to, from, 1);
            let ghost node_to0 = self.nodes@[to as int];
            let dst = &mut self.nodes[to as usize];
            dst.update_table(&p, time);
            proof {
                lemma_update_keeps_bounds(node_to0, *dst, &p, time);
            }

            // forward the information refreshed last round
            let src_entries = &snapshot[from as usize];
            let mut j: usize = 0;
            while j < src_entries.len()
                invariant
                    io.wf(),
                    iter.graph == io.graph,
                    self.nodes@.len() == n,
                    io.node_count_spec() == n,
                    0 < iter.idx <= iter.graph.links@.len(),
                    from == iter.graph.links@[iter.idx - 1].from,
                    to == iter.graph.links@[iter.idx - 1].to,
                    from != to,
                    (to as int) < n,
                    time == self.time,
                    j <= src_entries@.len(),
                    src_entries@ == snapshot@[from as int]@,
                    forall|e: int|
                        0 <= e < src_entries@.len() ==> ((
                        #[trigger] src_entries@[e]).last_updated as int <= time as int - 1
                            && src_entries@[e].hops as int <= time as int - 1),
                    forall|k: int| 0 <= k < n ==> (#[trigger] self.nodes@[k]).aged(time),
                    forall|k: int| 0 <= k < n ==> (#[trigger] self.nodes@[k]).stamps_le(time),
                    forall|k: int|
                        0 <= k < iter.idx && (#[trigger] iter.graph.links@[k]).from
                            != iter.graph.links@[k].to && ((iter.graph.links@[k].to as int) < n)
                            ==> knows_route(
                            self.nodes@[iter.graph.links@[k].to as int].entries@,
                            iter.graph.links@[k].from,
                            time,
                        ),
                    pre.nodes@.len() == n,
                    forall|k: int|
                        0 <= k < iter.idx - 1 && (#[trigger] iter.graph.links@[k]).from
                            != iter.graph.links@[k].to && ((iter.graph.links@[k].to as int) < n)
                            && ((iter.graph.links@[k].from as int) < n) ==> forwards_fresh(
                            pre.nodes@[iter.graph.links@[k].from as int].entries@,
                            self.nodes@[iter.graph.links@[k].to as int].entries@,
                            iter.graph.links@[k].to,
                            time,
                        ),
                    // the snapshot entries advertised so far are known at the
                    // receiver
                    forall|e: int|
                        0 <= e < j && ((#[trigger] src_entries@[e]).last_updated as int) + 1
                            == time as int && src_entries@[e].id != to ==> knows_destination(
                            self.nodes@[to as int].entries@,
                            src_entries@[e].id,
                        ),
                decreases src_entries@.len() - j,
            {
                let entry = src_entries[j];
                if entry.last_updated + 1 == time {
                    let p2 = Packet::new(from, to, entry.id, entry.hops + 1);
                    let ghost node_to1 = self.nodes@[to as int];
                    let dst2 = &mut self.nodes[to as usize];
                    dst2.update_table(&p2, time);
                    proof {
                        lemma_update_keeps_bounds(node_to1, *dst2, &p2, time);
                    }
                }
                j += 1;
            }
            proof {
                // every route the sender refreshed last round survived the
                // aging pass into the snapshot, so it was advertised
                let ghost fromi = from as int;
                assert forall|e: int|
                    0 <= e < pre.nodes@[fromi].entries@.len() && ((
                    #[trigger] pre.nodes@[fromi].entries@[e]).last_updated as int) + 1
                        == time as int && pre.nodes@[fromi].entries@[e].id != to
                        implies knows_destination(
                    self.nodes@[to as int].entries@,
                    pre.nodes@[fromi].entries@[e].id,
                ) by {
                    assert(keeps_fresh(pre.nodes@[fromi].entries@, snapshot@[fromi]@, time));
                    assert(snapshot@[fromi]@.contains(pre.nodes@[fromi].entries@[e]));
                    let j0 = choose|j0: int|
                        0 <= j0 < snapshot@[fromi]@.len() && snapshot@[fromi]@[j0]
                            == pre.nodes@[fromi].entries@[e];
                }
            }
        }
    }

    fn route(&self, packet: &TestPacket) -> Option<ID> {
        self.nodes[packet.receiver as usize].route(packet)
    }
}

/// Working one advertisement with a fresh stamp and a bounded hop count into
/// an aged, bounded table keeps the table aged and bounded.
proof fn lemma_update_keeps_bounds(before: Node, after: Node, packet: &Packet, time: u32)
    requires
        before.aged(time),
        before.stamps_le(time),
        packet.hops <= time,
        packet.hops >= 1,
        // this is exactly what `update_table` promises
        packet.origin == packet.to ==> after.entries@ == before.entries@,
        packet.origin != packet.to ==> {
            if exists|j: int|
                0 <= j < before.entries@.len() && (#[trigger] before.entries@[j]).id
                    == packet.origin {
                exists|j: int|
                    {
                        &&& 0 <= j < before.entries@.len()
                        &&& (#[trigger] before.entries@[j]).id == packet.origin
                        &&& forall|k: int|
                            0 <= k < j ==> (#[trigger] before.entries@[k]).id != packet.origin
                        &&& if packet.hops <= before.entries@[j].hops {
                            after.entries@ == before.entries@.update(
                                j,
                                Entry {
                                    id: before.entries@[j].id,
                                    next: packet.from,
                                    hops: before.entries@[j].hops,
                                    last_updated: time,
                                },
                            )
                        } else {
                            after.entries@ == before.entries@
                        }
                    }
            } else {
                after.entries@ == before.entries@.push(
                    Entry {
                        id: packet.origin,
                        next: packet.from,
                        hops: packet.hops,
                        last_updated: time,
                    },
                )
            }
        },
    ensures
        after.aged(time),
        after.stamps_le(time),
{
}

} // verus!
