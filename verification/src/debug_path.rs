//! Single-step the forwarding of one test packet: drive a route query one hop
//! at a time and report what happened, for interactive inspection.

use crate::graph::{has_pair, Graph, ID};
use crate::sim::TestPacket;
use vstd::prelude::*;

verus! {

/// What one debug step did.
#[derive(Clone, Copy, PartialEq, Eq, Structural, Debug)]
pub enum DebugStep {
    /// `init` has not been called yet.
    NotInitialized,
    /// The walk had already finished before this step.
    Ended,
    /// The packet moved one hop.
    Forwarded(ID),
    /// The packet reached its destination with this step.
    Arrived(ID),
    /// The routing state offered a next hop that is not a current link.
    LostInvalidHop(ID),
    /// The routing state offered no next hop.
    LostNoHop,
}

/// A single packet walk that advances one hop per call.
pub struct DebugPath {
    pub costs: u64,
    pub packet: TestPacket,
    pub initialized: bool,
    pub debug_running: bool,
    pub step: u32,
}

impl DebugPath {
    pub fn new() -> (r: DebugPath)
        ensures
            !r.initialized,
            !r.debug_running,
            r.costs == 0,
            r.step == 0,
    {
        DebugPath {
            costs: 0,
            packet: TestPacket::new(0, 0, 0, 0),
            initialized: false,
            debug_running: false,
            step: 0,
        }
    }

    /// Start a fresh walk from `source` toward `target`.
    pub fn init(&mut self, source: u32, target: u32)
        ensures
            final(self).initialized,
            final(self).debug_running,
            final(self).costs == 0,
            final(self).step == 0,
            final(self).packet == (TestPacket {
                transmitter: source,
                receiver: source,
                source,
                destination: target,
            }),
    {
        self.packet = TestPacket::new(source, source, source, target);
        self.costs = 0;
        self.initialized = true;
        self.debug_running = true;
        self.step = 0;
    }

    /// Advance the walk one hop, validating the offered hop against the
    /// graph; the walk ends on arrival or on a routing failure.
    pub fn step<F: Fn(&TestPacket) -> Option<ID>>(&mut self, graph: &Graph, route: &F) -> (r:
        DebugStep)
        requires
            graph.wf(),
            old(self).step < 0xffff_ffff,
            old(self).costs <= 0xffff_ffff_0000_0000,
            forall|p: &TestPacket| #[trigger] call_requires(route, (p,)),
        ensures
            !old(self).initialized ==> r == DebugStep::NotInitialized && *final(self) == *old(self),
            old(self).initialized && !old(self).debug_running ==> r == DebugStep::Ended
                && *final(self) == *old(self),
            old(self).initialized && old(self).debug_running ==> {
                &&& final(self).initialized
                &&& final(self).step == old(self).step + 1
                &&& (r is Forwarded <==> final(self).debug_running)
                &&& match r {
                    DebugStep::Forwarded(next) => {
                        &&& call_ensures(route, (&old(self).packet,), Some(next))
                        &&& has_pair(graph.links@, old(self).packet.receiver, next)
                        &&& next != old(self).packet.destination
                        &&& final(self).packet == (TestPacket {
                            transmitter: old(self).packet.receiver,
                            receiver: next,
                            source: old(self).packet.source,
                            destination: old(self).packet.destination,
                        })
                        &&& final(self).costs == old(self).costs + 1
                    },
                    DebugStep::Arrived(next) => {
                        &&& call_ensures(route, (&old(self).packet,), Some(next))
                        &&& has_pair(graph.links@, old(self).packet.receiver, next)
                        &&& next == old(self).packet.destination
                        &&& final(self).costs == old(self).costs + 1
                    },
                    DebugStep::LostNoHop => {
                        &&& call_ensures(route, (&old(self).packet,), None::<ID>)
                        &&& final(self).costs == old(self).costs
                        &&& final(self).packet == old(self).packet
                    },
                    DebugStep::LostInvalidHop(next) => {
                        &&& call_ensures(route, (&old(self).packet,), Some(next))
                        &&& !has_pair(graph.links@, old(self).packet.receiver, next)
                        &&& final(self).costs == old(self).costs
                        &&& final(self).packet == old(self).packet
                    },
                    _ => false,
                }
            },
    {
        if !self.initialized {
            return DebugStep::NotInitialized;
        }
        if !self.debug_running {
            return DebugStep::Ended;
        }
        self.step = self.step + 1;
        let next = match route(&self.packet) {
            Some(next) => next,
            None => {
                self.debug_running = false;
                return DebugStep::LostNoHop;
            },
        };
        // check if the link really exists
        let link = match graph.get_link(self.packet.receiver, next) {
            Some(link) => link,
            None => {
                self.debug_running = false;
                return DebugStep::LostInvalidHop(next);
            },
        };
        proof {
            let li = choose|li: int| 0 <= li < graph.links@.len() && graph.links@[li] == link;
            assert(graph.link_ok(graph.links@[li]));
            assert(has_pair(graph.links@, self.packet.receiver, next)) by {
                assert(graph.links@[li].from == self.packet.receiver && graph.links@[li].to
                    == next);
            }
        }
        self.costs = self.costs + (link.cost() as u64);
        self.packet = TestPacket::new(
            self.packet.receiver,
            next,
            self.packet.source,
            self.packet.destination,
        );
        if self.packet.receiver == self.packet.destination {
            self.debug_running = false;
            DebugStep::Arrived(next)
        } else {
            DebugStep::Forwarded(next)
        }
    }
}

} // verus!
