//! The evaluation harness: measure a routing function's quality against the
//! shortest-path oracle without letting the algorithm's state change. Each
//! sample forwards a test packet hop by hop — every hop validated against the
//! topology — until it arrives, gets stuck, or exhausts a step budget of
//! twice the minimal cost. An arrived sample can never undercut the oracle's
//! minimum, so the summed actual cost stays at or above the summed minimal
//! cost: the stretch is at least one.

use crate::dijkstra::{dist_table_ok, Dijkstra};
use crate::graph::{has_pair, reachable_directed, Graph, Link, ID};
use crate::sim::TestPacket;
use vstd::prelude::*;

verus! {

/// All four addresses of a packet name nodes of an n-node graph.
pub open spec fn packet_in_range(p: TestPacket, n: int) -> bool {
    &&& (p.transmitter as int) < n
    &&& (p.receiver as int) < n
    &&& (p.source as int) < n
    &&& (p.destination as int) < n
}

/// The abstract forwarding walk: with a fixed routing function, a packet at
/// its receiver reaches the destination within `budget` forwarding steps,
/// counting only hops that exist in the link list.
pub open spec fn walk_arrives(
    route: spec_fn(TestPacket) -> Option<ID>,
    links: Seq<Link>,
    packet: TestPacket,
    budget: nat,
) -> bool
    decreases budget,
{
    if budget == 0 {
        false
    } else {
        match route(packet) {
            None => false,
            Some(next) => has_pair(links, packet.receiver, next) && (next == packet.destination
                || walk_arrives(
                route,
                links,
                TestPacket {
                    transmitter: packet.receiver,
                    receiver: next,
                    source: packet.source,
                    destination: packet.destination,
                },
                (budget - 1) as nat,
            )),
        }
    }
}

/// Shrinking the step budget never lets more packets arrive: a packet that
/// arrives within some budget also arrives within any larger one, the routing
/// function and the topology held fixed. Equivalently, the arrived count is
/// monotonically non-increasing as the budget shrinks.
pub proof fn lemma_arrival_monotone_in_budget(
    route: spec_fn(TestPacket) -> Option<ID>,
    links: Seq<Link>,
    packet: TestPacket,
    b1: nat,
    b2: nat,
)
    requires
        b1 <= b2,
        walk_arrives(route, links, packet, b1),
    ensures
        walk_arrives(route, links, packet, b2),
    decreases b1,
{
    if let Some(next) = route(packet) {
        if next != packet.destination {
            lemma_arrival_monotone_in_budget(
                route,
                links,
                TestPacket {
                    transmitter: packet.receiver,
                    receiver: next,
                    source: packet.source,
                    destination: packet.destination,
                },
                (b1 - 1) as nat,
                (b2 - 1) as nat,
            );
        }
    }
}

/// The packet a forwarding walk hands to the routing function after the
/// recorded hops: at the start it sits at the source; afterwards at the last
/// hop's target.
pub open spec fn packet_after(chain: Seq<(TestPacket, ID)>, source: ID, target: ID) -> TestPacket {
    if chain.len() == 0 {
        TestPacket { transmitter: source, receiver: source, source: source, destination: target }
    } else {
        TestPacket {
            transmitter: chain.last().0.receiver,
            receiver: chain.last().1,
            source: source,
            destination: target,
        }
    }
}

/// A record of link-validated, non-arriving hops: each record holds the
/// packet handed to the routing function and the hop it answered; each hop is
/// a stored link, misses the target, and feeds the next packet.
pub open spec fn hop_chain_ok(
    chain: Seq<(TestPacket, ID)>,
    links: Seq<Link>,
    source: ID,
    target: ID,
) -> bool {
    &&& forall|i: int|
        0 <= i < chain.len() ==> (#[trigger] chain[i]).0 == packet_after(
            chain.subrange(0, i),
            source,
            target,
        )
    &&& forall|i: int| 0 <= i < chain.len() ==> has_pair(links, (#[trigger] chain[i]).0.receiver, chain[i].1)
    &&& forall|i: int| 0 <= i < chain.len() ==> (#[trigger] chain[i]).1 != target
}

/// Number of targets below `t` — other than `s` itself — that `s` reaches
/// over the links in their stored direction.
pub open spec fn count_reachable_row(links: Seq<Link>, s: int, t: int) -> int
    decreases t,
{
    if t <= 0 {
        0
    } else {
        count_reachable_row(links, s, t - 1) + if s != t - 1 && reachable_directed(
            links,
            s,
            t - 1,
        ) {
            1int
        } else {
            0int
        }
    }
}

/// Number of ordered pairs (source, target) with the source below `s`, the
/// target below `n` and distinct from the source, and the target reachable
/// from the source over the links in their stored direction.
pub open spec fn count_reachable_pairs(links: Seq<Link>, s: int, n: int) -> int
    decreases s,
{
    if s <= 0 {
        0
    } else {
        count_reachable_pairs(links, s - 1, n) + count_reachable_row(links, s - 1, n)
    }
}

/// Tests whether the current routing state delivers packets along all paths,
/// and at what cost. The routing state itself is never changed.
pub struct PassiveRoutingTest {
    pub is_done: bool,
    pub packets_send: u64,
    pub packets_lost: u64,
    pub packets_arrived: u64,
    pub route_costs_sum: u64,
    pub route_costs_min_sum: u64,
    pub nodes_connected: u64,
    pub nodes_disconnected: u64,
    pub dijkstra: Dijkstra,
}

impl PassiveRoutingTest {
    /// Counter consistency: every sent packet either arrived, was lost, or
    /// ran out of budget without being counted as either.
    pub open spec fn counters_ok(&self) -> bool {
        &&& self.packets_arrived + self.packets_lost <= self.packets_send
    }

    pub fn new() -> (r: PassiveRoutingTest)
        ensures
            r.counters_ok(),
            r.route_costs_sum == 0,
            r.route_costs_min_sum == 0,
            r.packets_send == 0,
            !r.is_done,
            forall|g: Graph| r.dijkstra.valid_for(g),
    {
        PassiveRoutingTest {
            is_done: false,
            packets_send: 0,
            packets_lost: 0,
            packets_arrived: 0,
            route_costs_sum: 0,
            route_costs_min_sum: 0,
            nodes_connected: 0,
            nodes_disconnected: 0,
            dijkstra: Dijkstra::new(),
        }
    }

    /// Zero the counters, keeping the oracle cache.
    pub fn clear_stats(&mut self)
        ensures
            final(self).counters_ok(),
            final(self).packets_send == 0,
            final(self).packets_lost == 0,
            final(self).packets_arrived == 0,
            final(self).route_costs_sum == 0,
            final(self).route_costs_min_sum == 0,
            final(self).nodes_connected == 0,
            final(self).nodes_disconnected == 0,
            !final(self).is_done,
            final(self).dijkstra == old(self).dijkstra,
    {
        self.is_done = false;
        self.packets_send = 0;
        self.packets_lost = 0;
        self.packets_arrived = 0;
        self.route_costs_sum = 0;
        self.route_costs_min_sum = 0;
        self.nodes_connected = 0;
        self.nodes_disconnected = 0;
    }

    /// Zero the counters and drop the oracle cache; must be invoked whenever
    /// the algorithm or the graph changes between runs.
    pub fn clear(&mut self)
        ensures
            final(self).counters_ok(),
            final(self).packets_send == 0,
            final(self).packets_lost == 0,
            final(self).packets_arrived == 0,
            final(self).route_costs_sum == 0,
            final(self).route_costs_min_sum == 0,
            final(self).nodes_connected == 0,
            final(self).nodes_disconnected == 0,
            !final(self).is_done,
            forall|g: Graph| final(self).dijkstra.valid_for(g),
            forall|src: ID| !final(self).dijkstra.has_cached(src),
    {
        self.dijkstra.clear();
        self.clear_stats();
    }

    /// Forward one test packet from source toward target, charging the cost
    /// of each traversed link — validated to exist — and stopping on arrival,
    /// on a missing or invalid next hop, or after twice the minimal cost in
    /// steps. An arrived packet has paid at least the minimal cost.
    fn test_path<F: Fn(&TestPacket) -> Option<ID>>(
        &mut self,
        graph: &Graph,
        route: &F,
        source: ID,
        target: ID,
        costs_min: u64,
        Ghost(dtable): Ghost<Seq<Option<u64>>>,
    )
        requires
            graph.wf(),
            (source as int) < (graph.node_count as int),
            (target as int) < (graph.node_count as int),
            source != target,
            dist_table_ok(graph.links@, graph.node_count as int, source, dtable),
            dtable[target as int] == Some(costs_min),
            forall|p: &TestPacket|
                packet_in_range(*p, graph.node_count as int) ==> #[trigger] call_requires(
                    route,
                    (p,),
                ),
            old(self).counters_ok(),
            old(self).packets_send < 0xffff_ffff_ffff_ffff,
            old(self).packets_lost < 0xffff_ffff_ffff_ffff,
            old(self).packets_arrived < 0xffff_ffff_ffff_ffff,
            old(self).route_costs_sum + 2 * costs_min <= 0xffff_ffff_ffff_ffff,
            old(self).route_costs_min_sum + costs_min <= 0xffff_ffff_ffff_ffff,
            old(self).route_costs_sum >= old(self).route_costs_min_sum,
        ensures
            final(self).counters_ok(),
            final(self).packets_send == old(self).packets_send + 1,
            old(self).packets_lost <= final(self).packets_lost <= old(self).packets_lost + 1,
            old(self).packets_arrived <= final(self).packets_arrived <= old(self).packets_arrived
                + 1,
            final(self).packets_arrived + final(self).packets_lost <= old(self).packets_arrived
                + old(self).packets_lost + 1,
            final(self).route_costs_sum <= old(self).route_costs_sum + 2 * costs_min,
            final(self).route_costs_min_sum <= old(self).route_costs_min_sum + costs_min,
            final(self).route_costs_sum >= final(self).route_costs_min_sum,
            final(self).nodes_connected == old(self).nodes_connected,
            final(self).nodes_disconnected == old(self).nodes_disconnected,
            final(self).dijkstra == old(self).dijkstra,
            final(self).is_done == old(self).is_done,
            // the sums move exactly with the outcome
            final(self).packets_arrived > old(self).packets_arrived ==> final(self).route_costs_min_sum
                == old(self).route_costs_min_sum + costs_min,
            final(self).packets_arrived == old(self).packets_arrived ==> final(self).route_costs_sum
                == old(self).route_costs_sum && final(self).route_costs_min_sum == old(
                self,
            ).route_costs_min_sum,
            // what happened is tied to the routing function's own answers,
            // hop by hop
            exists|chain: Seq<(TestPacket, ID)>|
                {
                    &&& #[trigger] hop_chain_ok(chain, graph.links@, source, target)
                    &&& forall|i: int|
                        0 <= i < chain.len() ==> call_ensures(
                            route,
                            (&(#[trigger] chain[i]).0,),
                            Some(chain[i].1),
                        )
                    &&& chain.len() <= 2 * costs_min
                    &&& if final(self).packets_arrived > old(self).packets_arrived {
                        // the packet arrived: one more hop onto the target
                        // over a stored link, within the step budget
                        &&& final(self).packets_lost == old(self).packets_lost
                        &&& call_ensures(
                            route,
                            (&packet_after(chain, source, target),),
                            Some(target),
                        )
                        &&& has_pair(
                            graph.links@,
                            packet_after(chain, source, target).receiver,
                            target,
                        )
                        &&& chain.len() + 1 <= 2 * costs_min
                        &&& final(self).route_costs_sum == old(self).route_costs_sum + chain.len()
                            + 1
                    } else if final(self).packets_lost > old(self).packets_lost {
                        // the walk failed: the routing function offered no
                        // next hop, or one that is not a stored link
                        &&& exists|ans: Option<ID>|
                            #[trigger] call_ensures(
                                route,
                                (&packet_after(chain, source, target),),
                                ans,
                            ) && (ans is None || !has_pair(
                                graph.links@,
                                packet_after(chain, source, target).receiver,
                                ans.unwrap(),
                            ))
                    } else {
                        // the step budget ran out
                        chain.len() == 2 * costs_min
                    }
                },
    {
        let ghost n = graph.node_count as int;
        // maximum stretch we record
        let max_stretch: u64 = 2;
        let mut packet = TestPacket::new(source, source, source, target);
        let mut costs: u64 = 0;
        let ghost mut chain: Seq<(TestPacket, ID)> = Seq::empty();

        self.packets_send = self.packets_send + 1;

        // max steps to try until we give up
        let max_steps = costs_min * max_stretch;

        let mut i: u64 = 0;
        while i < max_steps
            invariant
                graph.wf(),
                n == graph.node_count as int,
                (source as int) < n,
                (target as int) < n,
                dist_table_ok(graph.links@, n, source, dtable),
                dtable[target as int] == Some(costs_min),
                forall|p: &TestPacket|
                    packet_in_range(*p, n) ==> #[trigger] call_requires(route, (p,)),
                max_steps == 2 * costs_min,
                i <= max_steps,
                costs == i,
                chain.len() == i,
                hop_chain_ok(chain, graph.links@, source, target),
                forall|i2: int|
                    0 <= i2 < chain.len() ==> call_ensures(
                        route,
                        (&(#[trigger] chain[i2]).0,),
                        Some(chain[i2].1),
                    ),
                packet == packet_after(chain, source, target),
                packet.destination == target,
                packet.source == source,
                packet_in_range(packet, n),
                packet.receiver != target,
                // the oracle's entry for the current receiver is a lower
                // bound on what the packet has paid so far
                (dtable[packet.receiver as int]) is Some,
                dtable[packet.receiver as int].unwrap() <= costs,
                self.packets_send == old(self).packets_send + 1,
                self.packets_lost == old(self).packets_lost,
                self.packets_arrived == old(self).packets_arrived,
                self.route_costs_sum == old(self).route_costs_sum,
                self.route_costs_min_sum == old(self).route_costs_min_sum,
                self.nodes_connected == old(self).nodes_connected,
                self.nodes_disconnected == old(self).nodes_disconnected,
                self.dijkstra == old(self).dijkstra,
                self.is_done == old(self).is_done,
                old(self).counters_ok(),
                old(self).packets_send < 0xffff_ffff_ffff_ffff,
                old(self).packets_lost < 0xffff_ffff_ffff_ffff,
                old(self).packets_arrived < 0xffff_ffff_ffff_ffff,
                old(self).route_costs_sum + 2 * costs_min <= 0xffff_ffff_ffff_ffff,
                old(self).route_costs_min_sum + costs_min <= 0xffff_ffff_ffff_ffff,
                old(self).route_costs_sum >= old(self).route_costs_min_sum,
            decreases max_steps - i,
        {
            let next = match route(&packet) {
                Some(next) => next,
                None => {
                    self.packets_lost = self.packets_lost + 1;
                    proof {
                        assert(hop_chain_ok(chain, graph.links@, source, target));
                        assert(call_ensures(route, (&packet_after(chain, source, target),), None::<ID>));
                    }
                    return ;
                },
            };
            // check if the link really exists
            let link = match graph.get_link(packet.receiver, next) {
                Some(link) => link,
                None => {
                    self.packets_lost = self.packets_lost + 1;
                    proof {
                        assert(hop_chain_ok(chain, graph.links@, source, target));
                        assert(call_ensures(
                            route,
                            (&packet_after(chain, source, target),),
                            Some(next),
                        ));
                    }
                    return ;
                },
            };
            proof {
                // the traversed link is relaxed in the oracle's table, so the
                // oracle's entry for the next node is a lower bound as well
                let li = choose|li: int|
                    0 <= li < graph.links@.len() && graph.links@[li] == link;
                assert(crate::dijkstra::edge_relaxed(graph.links@[li], dtable));
                assert(graph.link_ok(graph.links@[li]));
                assert(has_pair(graph.links@, packet.receiver, next)) by {
                    assert(graph.links@[li].from == packet.receiver && graph.links@[li].to == next);
                }
            }
            costs = costs + (link.cost() as u64);
            if next == target {
                // packet arrived
                self.packets_arrived = self.packets_arrived + 1;
                self.route_costs_sum = self.route_costs_sum + costs;
                self.route_costs_min_sum = self.route_costs_min_sum + costs_min;
                proof {
                    assert(hop_chain_ok(chain, graph.links@, source, target));
                    assert(call_ensures(
                        route,
                        (&packet_after(chain, source, target),),
                        Some(target),
                    ));
                }
                return ;
            } else {
                // forward packet
                proof {
                    let c2 = chain.push((packet, next));
                    assert forall|i2: int|
                        0 <= i2 < c2.len() implies (#[trigger] c2[i2]).0 == packet_after(
                        c2.subrange(0, i2),
                        source,
                        target,
                    ) by {
                        assert(c2.subrange(0, i2) =~= chain.subrange(0, i2));
                        if i2 < chain.len() {
                            assert(c2[i2] == chain[i2]);
                        } else {
                            assert(chain.subrange(0, i2) =~= chain);
                        }
                    }
                    chain = c2;
                }
                packet = TestPacket::new(packet.receiver, next, packet.source, packet.destination);
            }
            i += 1;
        }
        proof {
            assert(hop_chain_ok(chain, graph.links@, source, target));
        }
    }

    /// Draw `samples` random (source, target) pairs — rejecting equal pairs —
    /// and forward a test packet along each connected pair, counting arrivals,
    /// losses and connectivity. On a graph of fewer than two nodes this is a
    /// zero-sample run: every counter stays zero.
    #[verifier::rlimit(100)]
    #[verifier::spinoff_prover]
    pub fn run_samples<F: Fn(&TestPacket) -> Option<ID>>(
        &mut self,
        graph: &Graph,
        route: F,
        samples: usize,
    )
        requires
            graph.wf(),
            forall|p: &TestPacket|
                packet_in_range(*p, graph.node_count as int) ==> #[trigger] call_requires(
                    route,
                    (p,),
                ),
            // the counters must have room for every sample
            samples as int * (3 * (graph.node_count as int) * 0x10000 + 1)
                < 0xffff_ffff_ffff_ffff,
        ensures
            final(self).counters_ok(),
            final(self).route_costs_sum >= final(self).route_costs_min_sum,
            // twice the minimum bounds what an arrived packet may pay
            final(self).route_costs_sum as int <= 2 * final(self).route_costs_min_sum as int,
            final(self).packets_send as int <= samples as int,
            // only connected pairs are path-tested: one test each; equal or
            // unreachable draws are skipped or only counted as disconnected
            final(self).packets_send == final(self).nodes_connected,
            final(self).nodes_connected as int + final(self).nodes_disconnected as int
                <= samples as int,
            final(self).dijkstra.valid_for(*graph),
            final(self).is_done == (graph.node_count >= 2),
            graph.node_count < 2 ==> final(self).packets_send == 0 && final(self).packets_arrived
                == 0 && final(self).packets_lost == 0 && final(self).route_costs_sum == 0
                && final(self).route_costs_min_sum == 0 && final(self).nodes_connected == 0
                && final(self).nodes_disconnected == 0,
            graph.node_count < 2 ==> forall|src: ID| !final(self).dijkstra.has_cached(src),
    {
        self.clear();

        let node_count = graph.node_count();
        if node_count < 2 {
            return ;
        }
        let ghost n = graph.node_count as int;
        let ghost per = 3 * n * 0x10000 + 1;

        let mut s: usize = 0;
        while s < samples
            invariant
                graph.wf(),
                n == graph.node_count as int,
                2 <= node_count,
                node_count == graph.node_count,
                forall|p: &TestPacket|
                    packet_in_range(*p, n) ==> #[trigger] call_requires(route, (p,)),
                per == 3 * n * 0x10000 + 1,
                samples as int * per < 0xffff_ffff_ffff_ffff,
                s <= samples,
                self.counters_ok(),
                self.dijkstra.valid_for(*graph),
                self.route_costs_sum >= self.route_costs_min_sum,
                self.route_costs_sum as int <= 2 * self.route_costs_min_sum as int,
                self.packets_send == self.nodes_connected,
                self.nodes_connected as int + self.nodes_disconnected as int <= s as int,
                !self.is_done,
                self.packets_send as int <= s as int,
                self.packets_lost as int <= s as int,
                self.packets_arrived as int <= s as int,
                self.nodes_connected as int <= s as int,
                self.nodes_disconnected as int <= s as int,
                self.route_costs_sum as int <= s as int * (3 * n * 0x10000),
                self.route_costs_min_sum as int <= s as int * (n * 0x10000),
            decreases samples - s,
        {
            proof {
                // one more sample still fits every per-sample counter:
                // samples <= samples * per < the counter limit
                vstd::arithmetic::mul::lemma_mul_inequality(1, per, samples as int);
            }
            let source = crate::rng::random_below(node_count);
            let target = crate::rng::random_below(node_count);

            if source != target {
                let min = self.dijkstra.find_shortest_distance(
                    graph,
                    source as ID,
                    target as ID,
                );
                match min {
                    None => {
                        // no path between the pair
                        self.nodes_disconnected = self.nodes_disconnected + 1;
                    },
                    Some(costs_min) => {
                        self.nodes_connected = self.nodes_connected + 1;
                        let ghost dtable = self.dijkstra.dists_cache@[source as ID]@;
                        proof {
                            // the sums have room for one more sample's worth:
                            // sum + 2*costs_min <= (s+1)*a <= samples*a
                            //                   <= samples*per < the limit
                            let a = 3 * n * 0x10000;
                            let b = n * 0x10000;
                            assert(dtable[target as int] == Some(costs_min));
                            assert(costs_min <= b);
                            vstd::arithmetic::mul::lemma_mul_is_distributive_add_other_way(
                                a,
                                s as int,
                                1,
                            );
                            vstd::arithmetic::mul::lemma_mul_inequality(
                                s as int + 1,
                                samples as int,
                                a,
                            );
                            vstd::arithmetic::mul::lemma_mul_inequality(a, per, samples as int);
                            vstd::arithmetic::mul::lemma_mul_is_distributive_add_other_way(
                                b,
                                s as int,
                                1,
                            );
                            vstd::arithmetic::mul::lemma_mul_inequality(
                                s as int + 1,
                                samples as int,
                                b,
                            );
                            vstd::arithmetic::mul::lemma_mul_inequality(b, per, samples as int);
                        }
                        self.test_path(
                            graph,
                            &route,
                            source as ID,
                            target as ID,
                            costs_min,
                            Ghost(dtable),
                        );
                    },
                }
            }
            proof {
                // per-sample budgets shift by one sample
                vstd::arithmetic::mul::lemma_mul_is_distributive_add_other_way(
                    3 * n * 0x10000,
                    s as int,
                    1,
                );
                vstd::arithmetic::mul::lemma_mul_is_distributive_add_other_way(
                    n * 0x10000,
                    s as int,
                    1,
                );
            }
            s += 1;
        }
        self.is_done = true;
    }

    /// The same measurement, exhaustively over all ordered (source, target)
    /// pairs; for small topologies and regression checks.
    #[verifier::rlimit(100)]
    #[verifier::spinoff_prover]
    pub fn run_all<F: Fn(&TestPacket) -> Option<ID>>(&mut self, graph: &Graph, route: F)
        requires
            graph.wf(),
            forall|p: &TestPacket|
                packet_in_range(*p, graph.node_count as int) ==> #[trigger] call_requires(
                    route,
                    (p,),
                ),
            // the counters must have room for every ordered pair
            (graph.node_count as int) * (graph.node_count as int) * (3 * (graph.node_count as int)
                * 0x10000 + 1) < 0xffff_ffff_ffff_ffff,
        ensures
            final(self).counters_ok(),
            final(self).route_costs_sum >= final(self).route_costs_min_sum,
            final(self).route_costs_sum as int <= 2 * final(self).route_costs_min_sum as int,
            // every ordered pair of distinct nodes is examined exactly once,
            // and every oracle-reachable pair is path-tested exactly once
            graph.node_count >= 2 ==> final(self).nodes_connected as int
                + final(self).nodes_disconnected as int == (graph.node_count as int) * (
            graph.node_count as int - 1),
            // the connected count is exactly the number of ordered pairs the
            // oracle finds reachable
            graph.node_count >= 2 ==> final(self).nodes_connected as int == count_reachable_pairs(
                graph.links@,
                graph.node_count as int,
                graph.node_count as int,
            ),
            final(self).packets_send == final(self).nodes_connected,
            final(self).dijkstra.valid_for(*graph),
            !final(self).is_done,
            graph.node_count < 2 ==> final(self).packets_send == 0 && final(self).packets_arrived
                == 0 && final(self).packets_lost == 0 && final(self).route_costs_sum == 0
                && final(self).route_costs_min_sum == 0 && final(self).nodes_connected == 0
                && final(self).nodes_disconnected == 0,
            graph.node_count < 2 ==> forall|src: ID| !final(self).dijkstra.has_cached(src),
    {
        self.clear();

        let node_count = graph.node_count();
        if node_count < 2 {
            return ;
        }
        let ghost n = graph.node_count as int;
        let ghost per = 3 * n * 0x10000 + 1;

        let mut source: usize = 0;
        while source < node_count
            invariant
                graph.wf(),
                n == graph.node_count as int,
                2 <= node_count,
                node_count == graph.node_count,
                forall|p: &TestPacket|
                    packet_in_range(*p, n) ==> #[trigger] call_requires(route, (p,)),
                per == 3 * n * 0x10000 + 1,
                n * n * per < 0xffff_ffff_ffff_ffff,
                source <= node_count,
                self.counters_ok(),
                self.dijkstra.valid_for(*graph),
                self.route_costs_sum >= self.route_costs_min_sum,
                self.route_costs_sum as int <= 2 * self.route_costs_min_sum as int,
                self.packets_send == self.nodes_connected,
                !self.is_done,
                self.nodes_connected as int + self.nodes_disconnected as int == source as int * (n
                    - 1),
                self.nodes_connected as int == count_reachable_pairs(graph.links@, source as int, n),
                self.packets_send as int <= source as int * n,
                self.packets_lost as int <= source as int * n,
                self.packets_arrived as int <= source as int * n,
                self.nodes_connected as int <= source as int * n,
                self.nodes_disconnected as int <= source as int * n,
                self.route_costs_sum as int <= (source as int * n) * (3 * n * 0x10000),
                self.route_costs_min_sum as int <= (source as int * n) * (n * 0x10000),
            decreases node_count - source,
        {
            let mut target: usize = 0;
            while target < node_count
                invariant
                    graph.wf(),
                    n == graph.node_count as int,
                    2 <= node_count,
                    node_count == graph.node_count,
                    forall|p: &TestPacket|
                        packet_in_range(*p, n) ==> #[trigger] call_requires(route, (p,)),
                    per == 3 * n * 0x10000 + 1,
                    n * n * per < 0xffff_ffff_ffff_ffff,
                    source < node_count,
                    target <= node_count,
                    self.counters_ok(),
                    self.dijkstra.valid_for(*graph),
                    self.route_costs_sum >= self.route_costs_min_sum,
                    self.route_costs_sum as int <= 2 * self.route_costs_min_sum as int,
                    self.packets_send == self.nodes_connected,
                    !self.is_done,
                    self.nodes_connected as int + self.nodes_disconnected as int == source as int
                        * (n - 1) + target as int - (if (source as int) < (target as int) {
                        1int
                    } else {
                        0int
                    }),
                    self.nodes_connected as int == count_reachable_pairs(
                        graph.links@,
                        source as int,
                        n,
                    ) + count_reachable_row(graph.links@, source as int, target as int),
                    self.packets_send as int <= source as int * n + target as int,
                    self.packets_lost as int <= source as int * n + target as int,
                    self.packets_arrived as int <= source as int * n + target as int,
                    self.nodes_connected as int <= source as int * n + target as int,
                    self.nodes_disconnected as int <= source as int * n + target as int,
                    self.route_costs_sum as int <= (source as int * n + target as int) * (3 * n
                        * 0x10000),
                    self.route_costs_min_sum as int <= (source as int * n + target as int) * (n
                        * 0x10000),
                decreases node_count - target,
            {
                if source != target {
                    proof {
                        lemma_run_all_bounds(
                            n,
                            source as int,
                            target as int,
                            self.route_costs_sum as int,
                            self.route_costs_min_sum as int,
                            self.packets_send as int,
                            self.packets_lost as int,
                            self.packets_arrived as int,
                            self.nodes_connected as int,
                            self.nodes_disconnected as int,
                        );
                    }
                    let min = self.dijkstra.find_shortest_distance(
                        graph,
                        source as ID,
                        target as ID,
                    );
                    let ghost dtable = self.dijkstra.dists_cache@[source as ID]@;
                    proof {
                        // the oracle's answer decides directed reachability
                        assert forall|i2: int| 0 <= i2 < graph.links@.len() implies (
                        #[trigger] graph.links@[i2]).cost >= 1 && ((graph.links@[i2].from as int)
                            < n) && ((graph.links@[i2].to as int) < n) by {
                            assert(graph.link_ok(graph.links@[i2]));
                        }
                        if min is Some {
                            crate::dijkstra::lemma_finite_implies_reachable(
                                graph.links@,
                                n,
                                source as ID,
                                dtable,
                                target as int,
                            );
                        } else {
                            if reachable_directed(graph.links@, source as int, target as int) {
                                let k = choose|k: nat| #[trigger] crate::graph::reach_directed(
                                    graph.links@,
                                    source as int,
                                    target as int,
                                    k,
                                );
                                crate::dijkstra::lemma_reachable_implies_finite(
                                    graph.links@,
                                    n,
                                    source as ID,
                                    dtable,
                                    source as int,
                                    target as int,
                                    k,
                                );
                            }
                        }
                    }
                    match min {
                        None => {
                            self.nodes_disconnected = self.nodes_disconnected + 1;
                        },
                        Some(costs_min) => {
                            self.nodes_connected = self.nodes_connected + 1;
                            proof {
                                assert(dtable[target as int] == Some(costs_min));
                                assert(costs_min as int <= n * 0x10000);
                            }
                            self.test_path(
                                graph,
                                &route,
                                source as ID,
                                target as ID,
                                costs_min,
                                Ghost(dtable),
                            );
                        },
                    }
                }
                proof {
                    lemma_run_all_bounds_after(n, source as int, target as int);
                }
                target += 1;
            }
            proof {
                lemma_run_all_row_step(n, source as int);
                vstd::arithmetic::mul::lemma_mul_is_distributive_add_other_way(
                    n - 1,
                    source as int,
                    1,
                );
            }
            source += 1;
        }
    }
}

/// Arithmetic for the exhaustive run: the counters stay inside the budget the
/// caller reserved for all ordered pairs, with room for one more pair of at
/// most the maximal cost.
proof fn lemma_run_all_bounds(
    n: int,
    source: int,
    target: int,
    sum: int,
    min_sum: int,
    send: int,
    lost: int,
    arrived: int,
    con: int,
    dis: int,
)
    requires
        n >= 2,
        0 <= source < n,
        0 <= target < n,
        n * n * (3 * n * 0x10000 + 1) < 0xffff_ffff_ffff_ffff,
        0 <= send <= source * n + target,
        0 <= lost <= source * n + target,
        0 <= arrived <= source * n + target,
        0 <= con <= source * n + target,
        0 <= dis <= source * n + target,
        0 <= sum <= (source * n + target) * (3 * n * 0x10000),
        0 <= min_sum <= (source * n + target) * (n * 0x10000),
    ensures
        send < 0xffff_ffff_ffff_ffff,
        lost < 0xffff_ffff_ffff_ffff,
        arrived < 0xffff_ffff_ffff_ffff,
        con < 0xffff_ffff_ffff_ffff,
        dis < 0xffff_ffff_ffff_ffff,
        sum + 2 * (n * 0x10000) <= 0xffff_ffff_ffff_ffff,
        min_sum + (n * 0x10000) <= 0xffff_ffff_ffff_ffff,
{
    assert(source * n + target < n * n) by (nonlinear_arith)
        requires
            0 <= source < n,
            0 <= target < n,
    ;
    assert(n * n <= n * n * (3 * n * 0x10000 + 1)) by (nonlinear_arith)
        requires
            n >= 2,
    ;
    assert((source * n + target) * (3 * n * 0x10000) + 3 * n * 0x10000 <= n * n * (3 * n * 0x10000
        + 1)) by (nonlinear_arith)
        requires
            n >= 2,
            source * n + target <= n * n - 1,
    ;
    assert((source * n + target) * (n * 0x10000) + 3 * n * 0x10000 <= n * n * (3 * n * 0x10000
        + 1)) by (nonlinear_arith)
        requires
            n >= 2,
            source * n + target <= n * n - 1,
    ;
}

/// After one more pair is measured, the counters fit the budget of one more
/// ordered pair.
proof fn lemma_run_all_bounds_after(n: int, source: int, target: int)
    requires
        n >= 2,
        0 <= source < n,
        0 <= target < n,
    ensures
        (source * n + target + 1) * (3 * n * 0x10000) == (source * n + target) * (3 * n * 0x10000)
            + 3 * n * 0x10000,
        (source * n + target + 1) * (n * 0x10000) == (source * n + target) * (n * 0x10000) + n
            * 0x10000,
{
    vstd::arithmetic::mul::lemma_mul_is_distributive_add_other_way(
        3 * n * 0x10000,
        source * n + target,
        1,
    );
    vstd::arithmetic::mul::lemma_mul_is_distributive_add_other_way(
        n * 0x10000,
        source * n + target,
        1,
    );
}

/// Stepping to the next source row re-bases the pair count.
proof fn lemma_run_all_row_step(n: int, source: int)
    requires
        n >= 2,
        0 <= source < n,
    ensures
        (source + 1) * n == source * n + n,
{
    vstd::arithmetic::mul::lemma_mul_is_distributive_add_other_way(n, source, 1);
}

} // verus!
