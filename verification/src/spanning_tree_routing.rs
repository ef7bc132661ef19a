//! Routing on top of a spanning tree. Every node knows the best root it has
//! heard of — the smallest identifier — together with the path that
//! information took; each round it shares that path with its neighbors. A
//! packet walks up toward the root until its own path and the destination's
//! path share a branch, then descends along the destination's path.

use crate::graph::{Link, ID};
use crate::rng::random_u16_as_u32;
use crate::sim::{Io, RoutingAlgorithm, TestPacket};
use crate::utils::{str_eq, u64_to_string, vec_filter};
use vstd::prelude::*;
use vstd::string::StringExecFns;

verus! {

/// A root claim: the claimed root's identifier and the node path the claim
/// has traveled, root first.
pub struct Path {
    pub id: u32,
    pub path: Vec<u32>,
}

impl Path {
    pub fn new() -> (r: Path)
        ensures
            r.id == 0,
            r.path@.len() == 0,
    {
        Path { id: 0, path: Vec::new() }
    }

    /// The trivial claim of a node about itself.
    pub fn with(id: u32) -> (r: Path)
        ensures
            r.id == id,
            r.path@ == seq![id],
    {
        let mut path: Vec<u32> = Vec::new();
        path.push(id);
        proof {
            assert(path@ =~= seq![id]);
        }
        Path { id, path }
    }

    pub fn len(&self) -> (r: usize)
        ensures
            r == self.path@.len(),
    {
        self.path.len()
    }

    pub fn push(&mut self, id: u32)
        ensures
            final(self).id == old(self).id,
            final(self).path@ == old(self).path@.push(id),
    {
        self.path.push(id);
    }

    /// An identical, independently owned claim.
    fn duplicate(&self) -> (r: Path)
        ensures
            r.id == self.id,
            r.path@ == self.path@,
    {
        let mut path: Vec<u32> = Vec::new();
        let mut i: usize = 0;
        while i < self.path.len()
            invariant
                i <= self.path@.len(),
                path@ == self.path@.subrange(0, i as int),
            decreases self.path@.len() - i,
        {
            path.push(self.path[i]);
            proof {
                assert(path@ =~= self.path@.subrange(0, i as int + 1));
            }
            i += 1;
        }
        proof {
            assert(path@ =~= self.path@);
        }
        Path { id: self.id, path }
    }
}

/// What a node broadcasts each round: its identifier and its current claim.
pub struct Packet {
    pub sender_id: u32,
    pub path: Path,
}

impl Packet {
    pub fn new() -> (r: Packet)
        ensures
            r.sender_id == 0,
            r.path.id == 0,
            r.path.path@.len() == 0,
    {
        Packet { sender_id: 0, path: Path::new() }
    }
}

/// A recently heard-from peer and the round it was last heard.
#[derive(Clone, Copy)]
pub struct Neighbor {
    pub id: u32,
    pub last_updated: u32,
}

/// Whether the path list holds any identifier twice.
pub fn has_duplicates(path: &Vec<u32>) -> (r: bool)
    ensures
        r == exists|i: int, j: int|
            0 <= i < path@.len() && 0 <= j < path@.len() && i != j && path@[i] == path@[j],
{
    let len = path.len();
    let mut i: usize = 0;
    while i < len
        invariant
            len == path@.len(),
            i <= len,
            forall|a: int, b: int|
                0 <= a < i && 0 <= b < len && a != b ==> #[trigger] path@[a] != #[trigger] path@[b],
        decreases len - i,
    {
        let mut j: usize = 0;
        while j < len
            invariant
                len == path@.len(),
                i < len,
                j <= len,
                forall|a: int, b: int|
                    0 <= a < i && 0 <= b < len && a != b ==> #[trigger] path@[a]
                        != #[trigger] path@[b],
                forall|b: int| 0 <= b < j && i as int != b ==> path@[i as int] != #[trigger] path@[b],
            decreases len - j,
        {
            if i != j && path[i] == path[j] {
                return true;
            }
            j += 1;
        }
        i += 1;
    }
    false
}

/// `l` is the length of the longest common prefix of two claims' node lists.
pub open spec fn is_common_len(a: Seq<u32>, b: Seq<u32>, l: int) -> bool {
    &&& 0 <= l <= a.len()
    &&& l <= b.len()
    &&& forall|k: int| 0 <= k < l ==> a[k] == b[k]
    &&& (l == a.len() || l == b.len() || a[l] != b[l])
}

/// Every local round counter leaves room for one more round.
pub open spec fn times_have_room(nodes: Seq<Node>) -> bool {
    forall|i: int| 0 <= i < nodes.len() ==> (#[trigger] nodes[i]).time < 0xffff_ffffu32
}

/// Some neighbor-table entry names this peer.
pub open spec fn knows_neighbor(ns: Seq<Neighbor>, id: u32) -> bool {
    exists|i: int| 0 <= i < ns.len() && (#[trigger] ns[i]).id == id
}

/// Some neighbor-table entry names this peer with this refresh stamp.
pub open spec fn knows_neighbor_at(ns: Seq<Neighbor>, id: u32, time: u32) -> bool {
    exists|i: int| 0 <= i < ns.len() && (#[trigger] ns[i]).id == id && ns[i].last_updated == time
}

/// Per-node state: the node's own identifier, its best root claim, its local
/// round counter, and the live-neighbor table. The entry with the smallest
/// root identifier wins.
pub struct Node {
    pub id: u32,
    pub path: Path,
    pub time: u32,
    pub neighbors: Vec<Neighbor>,
}

impl Node {
    /// The claim always ends at the node itself and is never empty.
    pub open spec fn path_wf(&self) -> bool {
        &&& self.path.path@.len() >= 1
        &&& self.path.path@.last() == self.id
    }

    /// Every neighbor entry was refreshed within the five-round horizon.
    pub open spec fn aged(&self) -> bool {
        forall|i: int|
            0 <= i < self.neighbors@.len() ==> (#[trigger] self.neighbors@[i]).last_updated as int
                + 5 >= self.time as int
    }

    pub fn new() -> (r: Node)
        ensures
            r.id == 0,
            r.time == 0,
            r.neighbors@.len() == 0,
    {
        Node { id: 0, path: Path::new(), time: 0, neighbors: Vec::new() }
    }

    /// Start over as node `id` at local round `time`, claiming itself as root.
    pub fn init(&mut self, id: u32, time: u32)
        ensures
            final(self).id == id,
            final(self).time == time,
            final(self).path.id == id,
            final(self).path.path@ == seq![id],
            final(self).neighbors@.len() == 0,
            final(self).path_wf(),
            final(self).aged(),
    {
        self.id = id;
        self.path = Path::with(id);
        self.time = time;
        self.neighbors.clear();
    }

    /// A claim is better when its root identifier is smaller, or equal with a
    /// shorter path.
    pub open spec fn spec_is_better(p1_id: u32, p1_len: int, p2_id: u32, p2_len: int) -> bool {
        p1_id < p2_id || (p1_id == p2_id && p1_len < p2_len)
    }

    fn is_better(p1: &Path, p2: &Path) -> (r: bool)
        ensures
            r == Self::spec_is_better(p1.id, p1.path@.len() as int, p2.id, p2.path@.len() as int),
    {
        (p1.id < p2.id) || (p1.id == p2.id && p1.len() < p2.len())
    }

    /// Advance the local round, drop stale neighbor entries, and produce the
    /// packet this node broadcasts: its current claim.
    pub fn tick(&mut self) -> (r: Packet)
        requires
            old(self).time < 0xffff_ffff,
        ensures
            final(self).id == old(self).id,
            final(self).path == old(self).path,
            final(self).time == old(self).time + 1,
            final(self).aged(),
            r.sender_id == old(self).id,
            r.path.id == old(self).path.id,
            r.path.path@ == old(self).path.path@,
    {
        self.time = self.time + 1;
        let time = self.time;
        let keep = |e: &Neighbor| -> (r: bool)
            ensures
                r == ((e.last_updated as int) + 5 >= time as int),
            { (e.last_updated as u64) + 5 >= (time as u64) };
        vec_filter(&mut self.neighbors, keep);
        Packet { sender_id: self.id, path: self.path.duplicate() }
    }

    /// Hear a neighbor's claim: adopt it — extended by this node — when it is
    /// better, and refresh the sender's neighbor entry either way.
    pub fn update(&mut self, packet: &Packet)
        ensures
            final(self).id == old(self).id,
            final(self).time == old(self).time,
            old(self).path_wf() ==> final(self).path_wf(),
            // the sender is known afterwards, with a fresh stamp
            knows_neighbor_at(final(self).neighbors@, packet.sender_id, old(self).time),
            Self::spec_is_better(
                packet.path.id,
                packet.path.path@.len() as int,
                old(self).path.id,
                old(self).path.path@.len() as int,
            ) ==> (final(self).path.id == packet.path.id && final(self).path.path@
                == packet.path.path@.push(old(self).id)),
            !Self::spec_is_better(
                packet.path.id,
                packet.path.path@.len() as int,
                old(self).path.id,
                old(self).path.path@.len() as int,
            ) ==> final(self).path == old(self).path,
            // nothing but the sender's refreshed entry is ever added
            forall|i: int|
                0 <= i < final(self).neighbors@.len() ==> (#[trigger] final(self).neighbors@[i])
                    == (Neighbor { id: packet.sender_id, last_updated: old(self).time }) || old(
                    self,
                ).neighbors@.contains(final(self).neighbors@[i]),
            // no known peer is forgotten, and fresh stamps survive
            forall|id0: u32| #[trigger] knows_neighbor(old(self).neighbors@, id0) ==> knows_neighbor(
                final(self).neighbors@,
                id0,
            ),
            forall|id0: u32| #[trigger] knows_neighbor_at(old(self).neighbors@, id0, old(self).time)
                ==> knows_neighbor_at(final(self).neighbors@, id0, old(self).time),
            // the root claim only ever improves, and never past the sender's
            final(self).path.id <= old(self).path.id,
            final(self).path.id <= packet.path.id,
    {
        if Self::is_better(&packet.path, &self.path) {
            self.path = packet.path.duplicate();
            self.path.push(self.id);
        }
        // refresh or add the sender's entry
        let time = self.time;
        let mut i: usize = 0;
        let n = self.neighbors.len();
        while i < n
            invariant
                n == self.neighbors@.len(),
                i <= n,
                time == old(self).time,
                self.id == old(self).id,
                self.time == old(self).time,
                self.neighbors@ == old(self).neighbors@,
                old(self).path_wf() ==> self.path_wf(),
                Node::spec_is_better(
                    packet.path.id,
                    packet.path.path@.len() as int,
                    old(self).path.id,
                    old(self).path.path@.len() as int,
                ) ==> (self.path.id == packet.path.id && self.path.path@
                    == packet.path.path@.push(old(self).id)),
                !Node::spec_is_better(
                    packet.path.id,
                    packet.path.path@.len() as int,
                    old(self).path.id,
                    old(self).path.path@.len() as int,
                ) ==> self.path == old(self).path,
            decreases n - i,
        {
            if self.neighbors[i].id == packet.sender_id {
                let ghost wi = i as int;
                let mut e = self.neighbors[i];
                e.last_updated = time;
                self.neighbors[i] = e;
                proof {
                    assert((self.neighbors@[wi]).id == packet.sender_id && (self.neighbors@[wi]).last_updated
                        == old(self).time);
                    assert forall|id0: u32| #[trigger] knows_neighbor(old(self).neighbors@, id0)
                        implies knows_neighbor(self.neighbors@, id0) by {
                        let k = choose|k: int|
                            0 <= k < old(self).neighbors@.len() && (#[trigger] old(
                                self,
                            ).neighbors@[k]).id == id0;
                        if k == wi {
                            assert(self.neighbors@[wi].id == id0);
                        } else {
                            assert(self.neighbors@[k] == old(self).neighbors@[k]);
                        }
                    }
                    assert forall|id0: u32| #[trigger] knows_neighbor_at(
                        old(self).neighbors@,
                        id0,
                        old(self).time,
                    ) implies knows_neighbor_at(self.neighbors@, id0, old(self).time) by {
                        let k = choose|k: int|
                            0 <= k < old(self).neighbors@.len() && (#[trigger] old(
                                self,
                            ).neighbors@[k]).id == id0 && old(self).neighbors@[k].last_updated
                                == old(self).time;
                        if k == wi {
                            assert(self.neighbors@[wi].id == id0 && self.neighbors@[wi].last_updated
                                == old(self).time);
                        } else {
                            assert(self.neighbors@[k] == old(self).neighbors@[k]);
                        }
                    }
                }
                return ;
            }
            i += 1;
        }
        self.neighbors.push(Neighbor { id: packet.sender_id, last_updated: time });
        proof {
            assert((self.neighbors@[self.neighbors@.len() - 1]).id == packet.sender_id && (
            self.neighbors@[self.neighbors@.len() - 1]).last_updated == old(self).time);
            assert forall|id0: u32| #[trigger] knows_neighbor(old(self).neighbors@, id0)
                implies knows_neighbor(self.neighbors@, id0) by {
                let k = choose|k: int|
                    0 <= k < old(self).neighbors@.len() && (#[trigger] old(self).neighbors@[k]).id
                        == id0;
                assert(self.neighbors@[k] == old(self).neighbors@[k]);
            }
            assert forall|id0: u32| #[trigger] knows_neighbor_at(
                old(self).neighbors@,
                id0,
                old(self).time,
            ) implies knows_neighbor_at(self.neighbors@, id0, old(self).time) by {
                let k = choose|k: int|
                    0 <= k < old(self).neighbors@.len() && (#[trigger] old(self).neighbors@[k]).id
                        == id0 && old(self).neighbors@[k].last_updated == old(self).time;
                assert(self.neighbors@[k] == old(self).neighbors@[k]);
            }
        }
    }

    /// Next hop toward `destination`, whose claim is `dpath`: deliver
    /// directly to a live neighbor; otherwise, within one tree, walk up
    /// toward the root unless the destination's path shares a longer prefix
    /// with the local path, in which case descend along the destination's
    /// path — but only to a live neighbor.
    pub fn route(&self, dpath: &Path, destination: ID) -> (r: Option<ID>)
        requires
            self.path_wf(),
            dpath.path@.len() >= 1,
            dpath.path@.last() == destination,
        ensures
            destination == self.id ==> r is None,
            destination != self.id && knows_neighbor(self.neighbors@, destination) ==> r == Some(
                destination,
            ),
            destination != self.id && !knows_neighbor(self.neighbors@, destination) && dpath.id
                != self.path.id ==> r is None,
            destination != self.id && !knows_neighbor(self.neighbors@, destination) && dpath.id
                == self.path.id ==> exists|l: int|
                {
                    &&& #[trigger] is_common_len(self.path.path@, dpath.path@, l)
                    &&& if l == 0 {
                        r is None
                    } else if l < self.path.path@.len() {
                        r == Some(self.path.path@[self.path.path@.len() - 2])
                    } else if knows_neighbor(self.neighbors@, dpath.path@[l]) {
                        r == Some(dpath.path@[l])
                    } else {
                        r is None
                    }
                },
    {
        // destination is this node
        if destination == self.id {
            return None;
        }

        // destination is a direct neighbor
        let mut i: usize = 0;
        let n = self.neighbors.len();
        while i < n
            invariant
                destination != self.id,
                n == self.neighbors@.len(),
                i <= n,
                forall|k: int| 0 <= k < i ==> (#[trigger] self.neighbors@[k]).id != destination,
            decreases n - i,
        {
            if self.neighbors[i].id == destination {
                proof {
                    assert((self.neighbors@[i as int]).id == destination);
                }
                return Some(destination);
            }
            i += 1;
        }

        proof {
            assert(!knows_neighbor(self.neighbors@, destination));
        }

        // a different tree: no way over the root
        if dpath.id != self.path.id {
            return None;
        }

        // the longest shared prefix of the two claims
        let own_len = self.path.len();
        let dst_len = dpath.len();
        let max = if own_len < dst_len {
            own_len
        } else {
            dst_len
        };
        let mut common_len: usize = max;
        let mut k: usize = 0;
        while k < max
            invariant
                self.path_wf(),
                dpath.path@.len() >= 1,
                dpath.path@.last() == destination,
                destination != self.id,
                !knows_neighbor(self.neighbors@, destination),
                dpath.id == self.path.id,
                own_len == self.path.path@.len(),
                dst_len == dpath.path@.len(),
                max == if own_len < dst_len {
                    own_len
                } else {
                    dst_len
                },
                k <= max,
                common_len == max,
                forall|k2: int| 0 <= k2 < k ==> self.path.path@[k2] == dpath.path@[k2],
            decreases max - k,
        {
            if self.path.index(k) != dpath.index(k) {
                proof {
                    assert(is_common_len(self.path.path@, dpath.path@, k as int));
                }
                common_len = k;
                return self.route_common(dpath, destination, common_len, Ghost(k as int));
            }
            k += 1;
        }
        proof {
            assert(is_common_len(self.path.path@, dpath.path@, max as int));
        }
        self.route_common(dpath, destination, common_len, Ghost(max as int))
    }

    /// The decision once the shared-prefix length is known.
    fn route_common(&self, dpath: &Path, destination: ID, common_len: usize, Ghost(l): Ghost<int>)
        -> (r: Option<ID>)
        requires
            self.path_wf(),
            dpath.path@.len() >= 1,
            dpath.path@.last() == destination,
            destination != self.id,
            common_len as int == l,
            is_common_len(self.path.path@, dpath.path@, l),
        ensures
            if l == 0 {
                r is None
            } else if l < self.path.path@.len() {
                r == Some(self.path.path@[self.path.path@.len() - 2])
            } else if knows_neighbor(self.neighbors@, dpath.path@[l]) {
                r == Some(dpath.path@[l])
            } else {
                r is None
            },
    {
        if common_len == 0 {
            return None;
        }
        let own_len = self.path.len();
        if common_len < own_len {
            // move up the tree
            proof {
                // the local path has at least two entries: its last one is
                // this node, and the shared prefix is shorter than the path
                assert(own_len >= 2);
            }
            let next = self.path.index(own_len - 2);
            return Some(next);
        }
        // move down the tree: the own path is the shared prefix, and the
        // destination's path continues past it, because the destination is
        // not this node
        proof {
            assert(l <= dpath.path@.len());
            if l == dpath.path@.len() {
                // then both paths are equal, so the destination is this node
                assert(self.path.path@ =~= dpath.path@);
                assert(false);
            }
        }
        let neighbor_id = dpath.index(common_len);
        let mut i: usize = 0;
        let n = self.neighbors.len();
        while i < n
            invariant
                common_len as int == l,
                is_common_len(self.path.path@, dpath.path@, l),
                self.path_wf(),
                l >= 1,
                l >= self.path.path@.len(),
                l < dpath.path@.len(),
                neighbor_id == dpath.path@[l],
                n == self.neighbors@.len(),
                i <= n,
                forall|k: int| 0 <= k < i ==> (#[trigger] self.neighbors@[k]).id != neighbor_id,
            decreases n - i,
        {
            if self.neighbors[i].id == neighbor_id {
                proof {
                    assert((self.neighbors@[i as int]).id == neighbor_id);
                }
                return Some(neighbor_id);
            }
            i += 1;
        }
        None
    }
}

impl Path {
    /// The identifier at position `i` of the claim's path.
    pub fn index(&self, i: usize) -> (r: u32)
        requires
            i < self.path@.len(),
        ensures
            r == self.path@[i as int],
    {
        self.path[i]
    }
}

/// The spanning-tree algorithm over all nodes. The packets every node will
/// broadcast are kept separately, so a round need not copy the node array.
pub struct SpanningTreeRouting {
    pub nodes: Vec<Node>,
    pub packets: Vec<Packet>,
}

impl SpanningTreeRouting {
    pub fn new() -> (r: SpanningTreeRouting)
        ensures
            r.node_len() == 0,
            r.wf(),
    {
        SpanningTreeRouting { nodes: Vec::new(), packets: Vec::new() }
    }
}

impl RoutingAlgorithm for SpanningTreeRouting {
    /// One node record per node, numbered by position, each with a
    /// well-formed claim, and one packet slot per node.
    open spec fn wf(&self) -> bool {
        &&& self.packets@.len() == self.nodes@.len()
        &&& forall|i: int|
            0 <= i < self.nodes@.len() ==> (#[trigger] self.nodes@[i]).id == i as u32
                && self.nodes@[i].path_wf()
    }

    open spec fn node_len(&self) -> int {
        self.nodes@.len() as int
    }

    /// Every local round counter leaves room for one more round.
    open spec fn can_step(&self) -> bool {
        times_have_room(self.nodes@)
    }

    /// Every neighbor table is fresh by its node's local round counter.
    open spec fn aged_ok(&self) -> bool {
        forall|i: int| 0 <= i < self.nodes@.len() ==> (#[trigger] self.nodes@[i]).aged()
    }

    /// One round advances every local counter, keeps identifiers, only ever
    /// improves root claims, and over every delivered link makes the receiver
    /// know the sender and claim a root no worse than the sender's
    /// start-of-round claim.
    open spec fn step_rel(pre: Self, post: Self, links: Seq<Link>) -> bool {
        &&& post.nodes@.len() == pre.nodes@.len()
        &&& forall|i: int|
            0 <= i < post.nodes@.len() ==> ((#[trigger] post.nodes@[i]).time as int == pre.nodes@[i].time
                as int + 1 && post.nodes@[i].id == pre.nodes@[i].id && post.nodes@[i].path.id
                <= pre.nodes@[i].path.id)
        &&& forall|k: int|
            0 <= k < links.len() && ((#[trigger] links[k]).to as int) < post.nodes@.len() && ((
            links[k].from as int) < post.nodes@.len()) ==> (knows_neighbor_at(
                post.nodes@[links[k].to as int].neighbors@,
                pre.nodes@[links[k].from as int].id,
                post.nodes@[links[k].to as int].time,
            ) && post.nodes@[links[k].to as int].path.id <= pre.nodes@[links[k].from
                as int].path.id)
    }

    /// Deliver directly to a live neighbor; within one tree walk up toward
    /// the root unless the destination's claim shares a longer prefix, in
    /// which case descend — to a live neighbor only.
    open spec fn route_ok(&self, packet: TestPacket, r: Option<ID>) -> bool {
        let node = self.nodes@[packet.receiver as int];
        let dpath = self.nodes@[packet.destination as int].path;
        &&& (packet.destination == node.id ==> r is None)
        &&& (packet.destination != node.id && knows_neighbor(node.neighbors@, packet.destination)
            ==> r == Some(packet.destination))
        &&& (packet.destination != node.id && !knows_neighbor(node.neighbors@, packet.destination)
            && dpath.id != node.path.id ==> r is None)
        &&& (packet.destination != node.id && !knows_neighbor(node.neighbors@, packet.destination)
            && dpath.id == node.path.id ==> exists|l: int|
            {
                &&& #[trigger] is_common_len(node.path.path@, dpath.path@, l)
                &&& if l == 0 {
                    r is None
                } else if l < node.path.path@.len() {
                    r == Some(node.path.path@[node.path.path@.len() - 2])
                } else if knows_neighbor(node.neighbors@, dpath.path@[l]) {
                    r == Some(dpath.path@[l])
                } else {
                    r is None
                }
            })
    }

    open spec fn knows_key(&self, key: Seq<char>) -> bool {
        false
    }

    fn get(&self, key: &str) -> String {
        if str_eq(key, "name") {
            String::from_str("Spanning Tree Routing")
        } else if str_eq(key, "description") {
            String::from_str(
                "Create a spanning tree. Every node shares with its neighbors the lowest known identifier, called root, along with the path that identifier took.",
            )
        } else {
            String::new()
        }
    }

    fn get_node(&self, id: ID, key: &str) -> String {
        let node = &self.nodes[id as usize];
        if str_eq(key, "name") {
            u64_to_string(node.id as u64)
        } else if str_eq(key, "label") {
            let mut out = u64_to_string(node.neighbors.len() as u64);
            out.append(",");
            out.append(u64_to_string(node.path.len() as u64).as_str());
            out
        } else {
            String::new()
        }
    }

    fn set(&mut self, key: &str, value: &str) -> (known: bool) {
        false
    }

    /// Reallocate: node i takes identifier i and a random small starting
    /// round, claiming itself as root with an empty neighbor table.
    fn reset(&mut self, len: usize)
        ensures
            final(self).nodes@.len() == len,
            final(self).packets@.len() == len,
            forall|i: int|
                0 <= i < len ==> {
                    let node = #[trigger] final(self).nodes@[i];
                    &&& node.id == i as u32
                    &&& node.path.id == i as u32
                    &&& node.path.path@ == seq![i as u32]
                    &&& node.neighbors@.len() == 0
                    &&& node.time < 0x10000
                },
    {
        let mut nodes: Vec<Node> = Vec::new();
        let mut packets: Vec<Packet> = Vec::new();
        let mut i: usize = 0;
        while i < len
            invariant
                i <= len,
                nodes@.len() == i,
                packets@.len() == i,
                forall|k: int|
                    0 <= k < i ==> ((#[trigger] nodes@[k]).id == k as u32 && nodes@[k].path_wf()
                        && nodes@[k].time < 0x10000 && nodes@[k].aged() && nodes@[k].path.id == k
                        as u32 && nodes@[k].path.path@ == seq![k as u32]
                        && nodes@[k].neighbors@.len() == 0),
            decreases len - i,
        {
            let mut node = Node::new();
            let time = random_u16_as_u32();
            node.init(i as u32, time);
            nodes.push(node);
            packets.push(Packet::new());
            i += 1;
        }
        self.nodes = nodes;
        self.packets = packets;
    }

    /// One synchronous round: every node first captures the packet it will
    /// send — its claim as of the start of the round — then every link
    /// delivers its sender's packet to its receiver.
    fn step(&mut self, io: &Io) {
        let ghost n = self.nodes@.len() as int;
        let ghost pre = *self;
        // keep state: capture each node's broadcast before any update
        let mut i: usize = 0;
        while i < self.nodes.len()
            invariant
                self.nodes@.len() == n,
                self.packets@.len() == n,
                pre.nodes@.len() == n,
                i <= n,
                forall|k: int|
                    0 <= k < n ==> ((#[trigger] self.nodes@[k]).id == k as u32
                        && self.nodes@[k].path_wf()),
                forall|k: int| i <= k < n ==> #[trigger] self.nodes@[k] == pre.nodes@[k],
                forall|k: int| i <= k < n ==> (#[trigger] self.nodes@[k]).time < 0xffff_ffffu32,
                forall|k: int| 0 <= k < i ==> (#[trigger] self.nodes@[k]).aged(),
                forall|k: int|
                    0 <= k < i ==> ((#[trigger] self.nodes@[k]).time as int == pre.nodes@[k].time
                        as int + 1 && self.nodes@[k].path == pre.nodes@[k].path
                        && self.nodes@[k].id == pre.nodes@[k].id),
                forall|k: int|
                    0 <= k < i ==> ((#[trigger] self.packets@[k]).sender_id == pre.nodes@[k].id
                        && self.packets@[k].path.id == pre.nodes@[k].path.id
                        && self.packets@[k].path.path@ == pre.nodes@[k].path.path@),
            decreases n - i,
        {
            let node = &mut self.nodes[i];
            let packet = node.tick();
            self.packets[i] = packet;
            i += 1;
        }

        // deliver along every link
        let mut iter = io.link_iter();
        loop
            invariant
                io.wf(),
                iter.graph == io.graph,
                io.node_count_spec() == n,
                self.nodes@.len() == n,
                self.packets@.len() == n,
                pre.nodes@.len() == n,
                iter.idx <= iter.graph.links@.len(),
                forall|k: int|
                    0 <= k < n ==> ((#[trigger] self.nodes@[k]).id == k as u32
                        && self.nodes@[k].path_wf()),
                forall|k: int| 0 <= k < n ==> (#[trigger] self.nodes@[k]).aged(),
                forall|k: int|
                    0 <= k < n ==> ((#[trigger] self.nodes@[k]).time as int == pre.nodes@[k].time
                        as int + 1 && self.nodes@[k].id == pre.nodes@[k].id
                        && self.nodes@[k].path.id <= pre.nodes@[k].path.id),
                forall|k: int|
                    0 <= k < n ==> ((#[trigger] self.packets@[k]).sender_id == pre.nodes@[k].id
                        && self.packets@[k].path.id == pre.nodes@[k].path.id),
                forall|k: int|
                    0 <= k < iter.idx && ((#[trigger] iter.graph.links@[k]).to as int) < n && ((
                    iter.graph.links@[k].from as int) < n) ==> (knows_neighbor_at(
                        self.nodes@[iter.graph.links@[k].to as int].neighbors@,
                        pre.nodes@[iter.graph.links@[k].from as int].id,
                        self.nodes@[iter.graph.links@[k].to as int].time,
                    ) && self.nodes@[iter.graph.links@[k].to as int].path.id
                        <= pre.nodes@[iter.graph.links@[k].from as int].path.id),
            ensures
                iter.idx == iter.graph.links@.len(),
            decreases iter.graph.links@.len() - iter.idx,
        {
            let pair = match iter.next() {
                Some(p) => p,
                None => {
                    break ;
                },
            };
            let (from, to) = pair;
            let packet = &self.packets[from as usize];
            let ghost before = self.nodes@[to as int];
            let dst = &mut self.nodes[to as usize];
            dst.update(packet);
            proof {
                assert(self.nodes@[to as int].aged()) by {
                    lemma_update_keeps_aged(before, self.nodes@[to as int]);
                }
            }
        }
    }

    /// Walk toward the root unless the destination's path shares a longer
    /// common prefix, in which case descend the shared branch; deliver
    /// directly when the destination is a live neighbor.
    fn route(&self, packet: &TestPacket) -> Option<ID> {
        let dpath = self.nodes[packet.destination as usize].path.duplicate();
        self.nodes[packet.receiver as usize].route(&dpath, packet.destination)
    }
}

/// `update` only refreshes or adds neighbor entries at the node's current
/// round, so a fresh table stays fresh.
proof fn lemma_update_keeps_aged(before: Node, after: Node)
    requires
        before.aged(),
        after.time == before.time,
        // what `update` promises of the table
        forall|i: int|
            0 <= i < after.neighbors@.len() ==> (#[trigger] after.neighbors@[i]).last_updated
                == after.time || before.neighbors@.contains(after.neighbors@[i]),
    ensures
        after.aged(),
{
    assert forall|i: int| 0 <= i < after.neighbors@.len() implies (
    #[trigger] after.neighbors@[i]).last_updated as int + 5 >= after.time as int by {
        if after.neighbors@[i].last_updated != after.time {
            assert(before.neighbors@.contains(after.neighbors@[i]));
            let k = choose|k: int|
                0 <= k < before.neighbors@.len() && before.neighbors@[k] == after.neighbors@[i];
        }
    }
}

} // verus!
