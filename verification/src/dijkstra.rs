//! Cached shortest-path oracle: per-source distance and predecessor tables
//! computed by an O(V^2) relaxation over the whole node set, memoized until
//! the caller clears them. The tables carry a certificate: the source's own
//! entry is zero, every link is relaxed, and every finite entry is reached
//! exactly through some link. Those facts pin the table down — two certified
//! tables agree everywhere (`lemma_dist_table_unique`), a finite entry marks
//! exactly the reachable nodes (`lemma_finite_implies_reachable`,
//! `lemma_reachable_implies_finite`), and a finite entry is a lower bound on
//! the cost of any concrete walk.

use crate::graph::{has_pair, reach_directed, reachable_directed, Graph, Link, ID};
use std::collections::HashMap;
use vstd::prelude::*;

verus! {

broadcast use vstd::std_specs::hash::group_hash_axioms;

/// Identifier marking "no predecessor" in a predecessor table. Node
/// identifiers stay below it because a graph holds at most 0xffff_ffff nodes.
pub const NO_PREV: ID = 0xffff_ffffu32;

/// A finite source entry forces a finite target entry no larger than the
/// source entry plus the link cost.
pub open spec fn edge_relaxed(l: Link, d: Seq<Option<u64>>) -> bool {
    ((l.from as int) < d.len() && (l.to as int) < d.len() && d[l.from as int] is Some) ==> (d[l.to
        as int] is Some && d[l.to as int].unwrap() <= d[l.from as int].unwrap() + l.cost)
}

/// Certified shortest-distance table for `source` over `n` nodes joined by
/// `links`: zero at the source, every link relaxed, every other finite entry
/// reached exactly through some link, and all finite entries bounded. With
/// positive link costs these conditions hold of exactly one table — the true
/// shortest hop-cost distances, with `None` for the unreachable nodes.
pub open spec fn dist_table_ok(links: Seq<Link>, n: int, source: ID, d: Seq<Option<u64>>) -> bool {
    &&& d.len() == n
    &&& ((source as int) < n ==> d[source as int] == Some(0u64))
    &&& forall|i: int| 0 <= i < links.len() ==> edge_relaxed(#[trigger] links[i], d)
    &&& forall|v: int|
        0 <= v < n && (#[trigger] d[v]) is Some && v != source as int ==> exists|i: int|
            0 <= i < links.len() && ((#[trigger] links[i]).to as int) == v && (links[i].from as int)
                < n && d[links[i].from as int] is Some && d[v].unwrap() == d[links[i].from
                as int].unwrap() + links[i].cost
    &&& forall|v: int| 0 <= v < n && (#[trigger] d[v]) is Some ==> d[v].unwrap() <= n * 0x10000
}

/// Predecessor table matching a distance table: `NO_PREV` marks the source
/// and the unreachable nodes; every other entry names a real link whose far
/// end lies strictly closer to the source.
pub open spec fn prev_table_ok(
    links: Seq<Link>,
    n: int,
    source: ID,
    p: Seq<ID>,
    d: Seq<Option<u64>>,
) -> bool {
    &&& p.len() == n
    &&& d.len() == n
    &&& forall|v: int|
        0 <= v < n ==> (((#[trigger] p[v]) == NO_PREV) <==> (v == source as int || d[v] is None))
    &&& forall|v: int|
        0 <= v < n && (#[trigger] p[v]) != NO_PREV ==> ((p[v] as int) < n && has_pair(
            links,
            p[v],
            v as ID,
        ) && d[v] is Some && d[p[v] as int] is Some && d[p[v] as int].unwrap() < d[v].unwrap())
}

/// A finite entry of a certified table marks a node the source reaches over
/// the links in their stored direction: the predecessor clause unwinds to a
/// directed walk, each step shrinking the entry by at least one.
pub proof fn lemma_finite_implies_reachable(
    links: Seq<Link>,
    n: int,
    source: ID,
    d: Seq<Option<u64>>,
    v: int,
)
    requires
        dist_table_ok(links, n, source, d),
        forall|i: int| 0 <= i < links.len() ==> (#[trigger] links[i]).cost >= 1,
        0 <= v < n,
        0 <= (source as int) < n,
        d[v] is Some,
    ensures
        reachable_directed(links, source as int, v),
    decreases d[v].unwrap(),
{
    if v == source as int {
        assert(reach_directed(links, source as int, v, 0));
    } else {
        let i = choose|i: int|
            0 <= i < links.len() && ((#[trigger] links[i]).to as int) == v && (links[i].from
                as int) < n && d[links[i].from as int] is Some && d[v].unwrap() == d[links[i].from
                as int].unwrap() + links[i].cost;
        lemma_finite_implies_reachable(links, n, source, d, links[i].from as int);
        let k = choose|k: nat| #[trigger] reach_directed(links, source as int, links[i].from as int, k);
        crate::graph::lemma_reach_directed_append(
            links,
            source as int,
            links[i].from as int,
            v,
            k,
            i,
        );
    }
}

/// A node the source reaches over directed links has a finite entry in a
/// certified table: each hop is relaxed.
pub proof fn lemma_reachable_implies_finite(
    links: Seq<Link>,
    n: int,
    source: ID,
    d: Seq<Option<u64>>,
    x: int,
    y: int,
    k: nat,
)
    requires
        dist_table_ok(links, n, source, d),
        forall|i: int|
            0 <= i < links.len() ==> ((#[trigger] links[i]).from as int) < n && (links[i].to
                as int) < n,
        reach_directed(links, x, y, k),
        0 <= x < n,
        0 <= y < n,
        d[x] is Some,
    ensures
        d[y] is Some,
    decreases k,
{
    if x != y {
        let i = choose|i: int|
            0 <= i < links.len() && ((#[trigger] links[i]).from as int == x) && reach_directed(
                links,
                links[i].to as int,
                y,
                (k - 1) as nat,
            );
        assert(edge_relaxed(links[i], d));
        lemma_reachable_implies_finite(links, n, source, d, links[i].to as int, y, (k - 1) as nat);
    }
}

/// A directed walk from x to y whose traversed links cost exactly `c` in
/// total; every traversed link costs at least one.
pub open spec fn dwalk(links: Seq<Link>, x: int, y: int, c: nat) -> bool
    decreases c,
{
    (x == y && c == 0) || exists|i: int|
        0 <= i < links.len() && ((#[trigger] links[i]).from as int == x) && 1 <= links[i].cost
            && links[i].cost as nat <= c && dwalk(links, links[i].to as int, y, (c - links[i].cost) as nat)
}

/// A directed walk extends by one more link at its end.
proof fn lemma_dwalk_append(links: Seq<Link>, x: int, y: int, z: int, c1: nat, i: int)
    requires
        dwalk(links, x, y, c1),
        0 <= i < links.len(),
        links[i].from as int == y,
        links[i].to as int == z,
        1 <= links[i].cost,
    ensures
        dwalk(links, x, z, (c1 + links[i].cost) as nat),
    decreases c1,
{
    if x == y && c1 == 0 {
        assert(dwalk(links, z, z, 0));
    } else {
        let j = choose|j: int|
            0 <= j < links.len() && ((#[trigger] links[j]).from as int == x) && 1 <= links[j].cost
                && links[j].cost as nat <= c1 && dwalk(
                links,
                links[j].to as int,
                y,
                (c1 - links[j].cost) as nat,
            );
        lemma_dwalk_append(links, links[j].to as int, y, z, (c1 - links[j].cost) as nat, i);
    }
}

/// A finite entry of a certified table is witnessed by a directed walk of
/// exactly that cost: the predecessor clause unwinds into one.
proof fn lemma_dist_walk_exists(links: Seq<Link>, n: int, source: ID, d: Seq<Option<u64>>, v: int)
    requires
        dist_table_ok(links, n, source, d),
        forall|i: int| 0 <= i < links.len() ==> 1 <= (#[trigger] links[i]).cost,
        0 <= v < n,
        0 <= (source as int) < n,
        d[v] is Some,
    ensures
        dwalk(links, source as int, v, d[v].unwrap() as nat),
    decreases d[v].unwrap(),
{
    if v == source as int {
        assert(dwalk(links, source as int, v, 0));
    } else {
        let i = choose|i: int|
            0 <= i < links.len() && ((#[trigger] links[i]).to as int) == v && (links[i].from
                as int) < n && d[links[i].from as int] is Some && d[v].unwrap() == d[links[i].from
                as int].unwrap() + links[i].cost;
        lemma_dist_walk_exists(links, n, source, d, links[i].from as int);
        lemma_dwalk_append(
            links,
            source as int,
            links[i].from as int,
            v,
            d[links[i].from as int].unwrap() as nat,
            i,
        );
    }
}

/// A directed walk bounds a certified table from above: starting from a
/// finite entry, every link along the walk is relaxed.
#[verifier::rlimit(50)]
#[verifier::spinoff_prover]
proof fn lemma_dwalk_bounds(
    links: Seq<Link>,
    n: int,
    source: ID,
    d: Seq<Option<u64>>,
    x: int,
    y: int,
    c: nat,
)
    requires
        dist_table_ok(links, n, source, d),
        forall|i: int|
            0 <= i < links.len() ==> ((#[trigger] links[i]).from as int) < n && (links[i].to
                as int) < n,
        dwalk(links, x, y, c),
        0 <= x < n,
        0 <= y < n,
        d[x] is Some,
    ensures
        d[y] is Some,
        d[y].unwrap() <= d[x].unwrap() + c,
    decreases c,
{
    if x == y && c == 0 {
    } else {
        let i = choose|i: int|
            0 <= i < links.len() && ((#[trigger] links[i]).from as int == x) && 1 <= links[i].cost
                && links[i].cost as nat <= c && dwalk(
                links,
                links[i].to as int,
                y,
                (c - links[i].cost) as nat,
            );
        assert(edge_relaxed(links[i], d));
        lemma_dwalk_bounds(
            links,
            n,
            source,
            d,
            links[i].to as int,
            y,
            (c - links[i].cost) as nat,
        );
    }
}

/// The certificate admits exactly one table: two certified tables for the
/// same links, node count and source agree everywhere. A finite entry is
/// witnessed by a walk of exactly its cost, and every walk bounds the other
/// table, in both directions — so the cached tables really are the unique
/// shortest-distance tables, with `None` exactly on the unreachable nodes.
pub proof fn lemma_dist_table_unique(
    links: Seq<Link>,
    n: int,
    source: ID,
    d1: Seq<Option<u64>>,
    d2: Seq<Option<u64>>,
)
    requires
        dist_table_ok(links, n, source, d1),
        dist_table_ok(links, n, source, d2),
        0 <= (source as int) < n,
        forall|i: int|
            0 <= i < links.len() ==> (1 <= (#[trigger] links[i]).cost && ((links[i].from as int)
                < n) && ((links[i].to as int) < n)),
    ensures
        d1 == d2,
{
    assert forall|v: int| 0 <= v < n implies d1[v] == d2[v] by {
        if d1[v] is Some {
            lemma_dist_walk_exists(links, n, source, d1, v);
            lemma_dwalk_bounds(links, n, source, d2, source as int, v, d1[v].unwrap() as nat);
        }
        if d2[v] is Some {
            lemma_dist_walk_exists(links, n, source, d2, v);
            lemma_dwalk_bounds(links, n, source, d1, source as int, v, d2[v].unwrap() as nat);
        }
    }
    assert(d1 =~= d2);
}

/// Number of `true` entries among the first `k` of the unvisited mask.
pub open spec fn count_true(q: Seq<bool>, k: int) -> int
    decreases k,
{
    if k <= 0 {
        0
    } else {
        count_true(q, k - 1) + if q[k - 1] {
            1int
        } else {
            0int
        }
    }
}

proof fn lemma_count_true_update(q: Seq<bool>, m: int, v: bool, k: int)
    requires
        0 <= m < q.len(),
        k <= q.len(),
    ensures
        count_true(q.update(m, v), k) == count_true(q, k) + if m < k {
            (if v {
                1int
            } else {
                0int
            }) - (if q[m] {
                1int
            } else {
                0int
            })
        } else {
            0int
        },
    decreases k,
{
    if k > 0 {
        lemma_count_true_update(q, m, v, k - 1);
    }
}

proof fn lemma_count_true_all(q: Seq<bool>, k: int)
    requires
        0 <= k <= q.len(),
        forall|j: int| 0 <= j < k ==> #[trigger] q[j],
    ensures
        count_true(q, k) == k,
    decreases k,
{
    if k > 0 {
        lemma_count_true_all(q, k - 1);
    }
}

/// A prefix with no `true` entry counts zero — and conversely, a zero count
/// over the prefix means no entry in it is `true`.
proof fn lemma_count_true_zero(q: Seq<bool>, k: int)
    requires
        0 <= k <= q.len(),
        count_true(q, k) <= 0,
    ensures
        forall|j: int| 0 <= j < k ==> !(#[trigger] q[j]),
    decreases k,
{
    if k > 0 {
        lemma_count_true_nonneg(q, k - 1);
        lemma_count_true_zero(q, k - 1);
    }
}

proof fn lemma_count_true_nonneg(q: Seq<bool>, k: int)
    ensures
        count_true(q, k) >= 0,
    decreases k,
{
    if k > 0 {
        lemma_count_true_nonneg(q, k - 1);
    }
}

/// The unvisited node with the smallest finite distance, if any.
fn get_smallest(q: &Vec<bool>, dists: &Vec<Option<u64>>) -> (r: Option<usize>)
    requires
        q@.len() == dists@.len(),
    ensures
        match r {
            Some(u) => u < q@.len() && q@[u as int] && dists@[u as int] is Some && forall|w: int|
                0 <= w < q@.len() && q@[w] && (#[trigger] dists@[w]) is Some
                    ==> dists@[u as int].unwrap() <= dists@[w].unwrap(),
            None => forall|w: int| 0 <= w < q@.len() && q@[w] ==> (#[trigger] dists@[w]) is None,
        },
{
    let mut node: Option<usize> = None;
    let mut i: usize = 0;
    while i < q.len()
        invariant
            q@.len() == dists@.len(),
            i <= q@.len(),
            match node {
                Some(u) => u < i && q@[u as int] && dists@[u as int] is Some && forall|w: int|
                    0 <= w < i && q@[w] && (#[trigger] dists@[w]) is Some
                        ==> dists@[u as int].unwrap() <= dists@[w].unwrap(),
                None => forall|w: int| 0 <= w < i && q@[w] ==> (#[trigger] dists@[w]) is None,
            },
        decreases q@.len() - i,
    {
        if q[i] {
            if let Some(d) = dists[i] {
                match node {
                    Some(u) => {
                        let du = dists[u].unwrap();
                        if d < du {
                            node = Some(i);
                        }
                    },
                    None => {
                        node = Some(i);
                    },
                }
            }
        }
        i += 1;
    }
    node
}

/// Find the shortest path on a graph. The caches must be cleared whenever the
/// topology changes; `valid_for` states what they promise for one topology.
pub struct Dijkstra {
    pub dists_cache: HashMap<ID, Vec<Option<u64>>>,
    pub prevs_cache: HashMap<ID, Vec<ID>>,
}

impl Dijkstra {
    /// Every cached table is a certified table for graph `g`.
    pub open spec fn valid_for(&self, g: Graph) -> bool {
        &&& forall|s: ID| #[trigger]
            self.dists_cache@.contains_key(s) ==> dist_table_ok(
                g.links@,
                g.node_count as int,
                s,
                self.dists_cache@[s]@,
            )
        &&& forall|s: ID| #[trigger]
            self.prevs_cache@.contains_key(s) ==> self.dists_cache@.contains_key(s)
        &&& forall|s: ID| #[trigger]
            self.dists_cache@.contains_key(s) ==> self.prevs_cache@.contains_key(s)
        &&& forall|s: ID| #[trigger]
            self.prevs_cache@.contains_key(s) ==> prev_table_ok(
                g.links@,
                g.node_count as int,
                s,
                self.prevs_cache@[s]@,
                self.dists_cache@[s]@,
            )
    }

    /// Whether a source's tables are cached.
    pub open spec fn has_cached(&self, source: ID) -> bool {
        self.dists_cache@.contains_key(source)
    }

    pub fn new() -> (r: Dijkstra)
        ensures
            forall|g: Graph| r.valid_for(g),
            forall|s: ID| !#[trigger] r.has_cached(s),
    {
        Dijkstra { dists_cache: HashMap::new(), prevs_cache: HashMap::new() }
    }

    /// Drop all cached tables; must be called whenever the topology changes.
    pub fn clear(self: &mut Dijkstra)
        ensures
            forall|g: Graph| final(self).valid_for(g),
            forall|s: ID| !#[trigger] final(self).has_cached(s),
    {
        self.dists_cache.clear();
        self.prevs_cache.clear();
    }

    /// The minimal hop-cost from source to target, `None` when the target is
    /// unreachable; computed on the first query per source, then cached.
    pub fn find_shortest_distance(
        self: &mut Dijkstra,
        graph: &Graph,
        source: ID,
        target: ID,
    ) -> (r: Option<u64>)
        requires
            graph.wf(),
            (source as int) < (graph.node_count as int),
            (target as int) < (graph.node_count as int),
            old(self).valid_for(*graph),
        ensures
            final(self).valid_for(*graph),
            final(self).has_cached(source),
            forall|s: ID| old(self).has_cached(s) ==> final(self).has_cached(s),
            r == final(self).dists_cache@[source]@[target as int],
            dist_table_ok(
                graph.links@,
                graph.node_count as int,
                source,
                final(self).dists_cache@[source]@,
            ),
    {
        if let Some(dists) = self.dists_cache.get(&source) {
            return dists[target as usize];
        }
        self.calculate_shortest_paths(graph, source);
        if let Some(dists) = self.dists_cache.get(&source) {
            return dists[target as usize];
        }
        proof {
            assert(false);
        }
        None
    }

    /// The cached predecessor chain from target back to source, outermost
    /// predecessor first: entry 0 is the link into the target, the last entry
    /// is the source. Empty when the target is the source or unreachable;
    /// `None` when nothing is cached for the source.
    pub fn get_shortest_path(
        self: &Dijkstra,
        graph: &Graph,
        source: ID,
        target: ID,
    ) -> (r: Option<Vec<ID>>)
        requires
            graph.wf(),
            (source as int) < (graph.node_count as int),
            (target as int) < (graph.node_count as int),
            self.valid_for(*graph),
        ensures
            r is Some <==> self.has_cached(source),
            match r {
                Some(path) => {
                    let d = self.dists_cache@[source]@;
                    &&& (path@.len() == 0 <==> (target == source || d[target as int] is None))
                    &&& (path@.len() > 0 ==> has_pair(graph.links@, path@[0], target)
                        && path@.last() == source)
                    &&& forall|i: int|
                        0 < i < path@.len() ==> has_pair(
                            graph.links@,
                            #[trigger] path@[i],
                            path@[i - 1],
                        )
                },
                None => true,
            },
    {
        let ghost n = graph.node_count as int;
        if !self.dists_cache.contains_key(&source) {
            return None;
        }
        let prevs = match self.prevs_cache.get(&source) {
            Some(p) => p,
            None => {
                proof {
                    assert(false);
                }
                return None;
            },
        };
        let ghost d = self.dists_cache@[source]@;
        proof {
            assert(prev_table_ok(graph.links@, n, source, prevs@, d));
        }
        let path = walk_prev_chain(
            prevs,
            target,
            Ghost(graph.links@),
            Ghost(n),
            Ghost(source),
            Ghost(d),
        );
        Some(path)
    }

    /// Compute and cache the distance and predecessor tables of `source` by
    /// V rounds of relaxation, each settling the unvisited node with the
    /// smallest finite distance.
    pub fn calculate_shortest_paths(self: &mut Dijkstra, graph: &Graph, source: ID)
        requires
            graph.wf(),
            (source as int) < (graph.node_count as int),
            old(self).valid_for(*graph),
        ensures
            final(self).valid_for(*graph),
            final(self).has_cached(source),
            forall|s: ID| old(self).has_cached(s) ==> final(self).has_cached(s),
    {
        let len = graph.node_count();
        let ghost n = len as int;
        let mut dists: Vec<Option<u64>> = Vec::with_capacity(len);
        let mut prevs: Vec<ID> = Vec::with_capacity(len);
        let mut q: Vec<bool> = Vec::with_capacity(len);
        let mut i: usize = 0;
        while i < len
            invariant
                i <= len,
                dists@.len() == i,
                prevs@.len() == i,
                q@.len() == i,
                forall|k: int| 0 <= k < i ==> (#[trigger] dists@[k]) is None,
                forall|k: int| 0 <= k < i ==> (#[trigger] prevs@[k]) == NO_PREV,
                forall|k: int| 0 <= k < i ==> #[trigger] q@[k],
            decreases len - i,
        {
            dists.push(None);
            prevs.push(NO_PREV);
            q.push(true);
            i += 1;
        }
        dists[source as usize] = Some(0);
        proof {
            lemma_count_true_all(q@, n);
        }

        let mut t: usize = 0;
        loop
            invariant
                t <= len,
                graph.wf(),
                n == graph.node_count as int,
                n == len as int,
                (source as int) < n,
                count_true(q@, n) == n - t,
                search_state_ok(graph.links@, n, source, dists@, prevs@, q@),
                d_bounded(dists@, n, t as int * 0x10000),
                // every link out of a settled node is relaxed
                forall|i2: int|
                    0 <= i2 < graph.links@.len() && !q@[(#[trigger] graph.links@[i2]).from as int]
                        ==> edge_relaxed(graph.links@[i2], dists@),
            ensures
                forall|v: int| 0 <= v < n && q@[v] ==> (#[trigger] dists@[v]) is None,
                search_state_ok(graph.links@, n, source, dists@, prevs@, q@),
                forall|i2: int|
                    0 <= i2 < graph.links@.len() && !q@[(#[trigger] graph.links@[i2]).from as int]
                        ==> edge_relaxed(graph.links@[i2], dists@),
            decreases len - t,
        {
            if t >= len {
                proof {
                    lemma_count_true_zero(q@, n);
                }
                break ;
            }
            let u = match get_smallest(&q, &dists) {
                Some(u) => u,
                None => {
                    break ;
                },
            };
            let ghost q0 = q@;
            q[u] = false;
            proof {
                lemma_count_true_update(q0, u as int, false, n);
                assert forall|v: int|
                    0 <= v < n && (#[trigger] dists@[v]) is Some && v != source as int
                        implies reached_through(graph.links@, dists@, q@, v) by {
                    if v != u as int || !q0[v] {
                        assert(reached_through(graph.links@, dists@, q0, v));
                        let i2 = choose|i2: int|
                            0 <= i2 < graph.links@.len() && ((#[trigger] graph.links@[i2]).to
                                as int) == v && (graph.links@[i2].from as int) < dists@.len()
                                && !q0[graph.links@[i2].from as int] && dists@[graph.links@[i2].from
                                as int] is Some && dists@[v].unwrap() == dists@[graph.links@[i2].from
                                as int].unwrap() + graph.links@[i2].cost;
                        assert(!q@[graph.links@[i2].from as int]);
                    } else {
                        // u itself was reached through a settled node before
                        // it was settled, unless it is the source
                        assert(reached_through(graph.links@, dists@, q0, v));
                        let i2 = choose|i2: int|
                            0 <= i2 < graph.links@.len() && ((#[trigger] graph.links@[i2]).to
                                as int) == v && (graph.links@[i2].from as int) < dists@.len()
                                && !q0[graph.links@[i2].from as int] && dists@[graph.links@[i2].from
                                as int] is Some && dists@[v].unwrap() == dists@[graph.links@[i2].from
                                as int].unwrap() + graph.links@[i2].cost;
                        assert(!q@[graph.links@[i2].from as int]);
                    }
                }
                assert(search_state_ok(graph.links@, n, source, dists@, prevs@, q@));
            }
            let du = dists[u].unwrap();
            let links = graph.get_neighbors(u as u32);
            let ghost start = choose|start: int|
                {
                    &&& 0 <= start
                    &&& start + links@.len() <= graph.links@.len()
                    &&& links@ == #[trigger] graph.links@.subrange(start, start + links@.len())
                    &&& forall|k: int|
                        0 <= k < graph.links@.len() ==> ((#[trigger] graph.links@[k]).from
                            == u as u32 <==> start <= k < start + links@.len())
                };
            proof {
                assert forall|i2: int|
                    0 <= i2 < graph.links@.len() && !q@[(
                    #[trigger] graph.links@[i2]).from as int] && !(start <= i2 < start
                        + links@.len()) implies edge_relaxed(graph.links@[i2], dists@) by {
                    assert(graph.links@[i2].from != u as u32);
                    assert(!q0[graph.links@[i2].from as int]);
                }
            }
            let mut j: usize = 0;
            while j < links.len()
                invariant
                    graph.wf(),
                    n == graph.node_count as int,
                    (source as int) < n,
                    u < n,
                    !q@[u as int],
                    t < len,
                    n == len as int,
                    j <= links@.len(),
                    count_true(q@, n) == n - t - 1,
                    dists@[u as int] is Some,
                    du == dists@[u as int].unwrap(),
                    du <= t as int * 0x10000,
                    0 <= start,
                    start + links@.len() <= graph.links@.len(),
                    links@ == graph.links@.subrange(start, start + links@.len() as int),
                    forall|k: int|
                        0 <= k < graph.links@.len() ==> ((#[trigger] graph.links@[k]).from
                            == u as u32 <==> start <= k < start + links@.len()),
                    search_state_ok(graph.links@, n, source, dists@, prevs@, q@),
                    d_bounded(dists@, n, (t + 1) as int * 0x10000),
                    // every settled distance is at most the one being settled
                    forall|a: int|
                        0 <= a < n && !q@[a] ==> (#[trigger] dists@[a]).unwrap() <= du,
                    // links of settled nodes are relaxed, except the still
                    // unprocessed tail of u's own block
                    forall|i2: int|
                        0 <= i2 < graph.links@.len() && !q@[(
                        #[trigger] graph.links@[i2]).from as int] && !(start + j <= i2 < start
                            + links@.len()) ==> edge_relaxed(graph.links@[i2], dists@),
                decreases links@.len() - j,
            {
                let link = links[j];
                proof {
                    assert(link == graph.links@[start + j]);
                    assert(graph.link_ok(graph.links@[start + j]));
                }
                let ghost d_before = dists@;
                relax_link(
                    &mut dists,
                    &mut prevs,
                    &q,
                    link,
                    u,
                    du,
                    Ghost(graph.links@),
                    Ghost(n),
                    Ghost(source),
                    Ghost(start + j),
                    Ghost((t + 1) as int * 0x10000),
                );
                proof {
                    assert forall|i2: int|
                        0 <= i2 < graph.links@.len() && !q@[(
                        #[trigger] graph.links@[i2]).from as int] && !(start + j + 1 <= i2 < start
                            + links@.len()) implies edge_relaxed(graph.links@[i2], dists@) by {
                        let l2 = graph.links@[i2];
                        if i2 == start + j {
                            if q@[l2.to as int] {
                            } else {
                                // the target is already settled, so its entry
                                // is no larger than the one being settled
                                assert(dists@ == d_before);
                            }
                        } else {
                            // this link was already relaxed; its source entry
                            // is unchanged and its target entry can only have
                            // improved
                            assert(edge_relaxed(l2, d_before));
                        }
                    }
                }
                j += 1;
            }
            t += 1;
        }

        proof {
            // at exit every unvisited node is unreachable, so every link is
            // relaxed: a link out of an unvisited node starts from an
            // infinite entry
            assert forall|i2: int| 0 <= i2 < graph.links@.len() implies edge_relaxed(
                #[trigger] graph.links@[i2],
                dists@,
            ) by {
                let l = graph.links@[i2];
                if q@[l.from as int] {
                    assert(dists@[l.from as int] is None);
                }
            }
            assert forall|v: int|
                0 <= v < n && (#[trigger] dists@[v]) is Some && v != source as int implies exists|
                i2: int,
            |
                0 <= i2 < graph.links@.len() && ((#[trigger] graph.links@[i2]).to as int) == v && (
                graph.links@[i2].from as int) < n && dists@[graph.links@[i2].from as int] is Some
                    && dists@[v].unwrap() == dists@[graph.links@[i2].from as int].unwrap()
                    + graph.links@[i2].cost by {
                assert(reached_through(graph.links@, dists@, q@, v));
                let i2 = choose|i2: int|
                    0 <= i2 < graph.links@.len() && ((#[trigger] graph.links@[i2]).to as int) == v
                        && (graph.links@[i2].from as int) < dists@.len()
                        && !q@[graph.links@[i2].from as int] && dists@[graph.links@[i2].from
                        as int] is Some && dists@[v].unwrap() == dists@[graph.links@[i2].from
                        as int].unwrap() + graph.links@[i2].cost;
                assert(0 <= i2 < graph.links@.len() && ((graph.links@[i2]).to as int) == v && (
                graph.links@[i2].from as int) < n && dists@[graph.links@[i2].from as int] is Some
                    && dists@[v].unwrap() == dists@[graph.links@[i2].from as int].unwrap()
                    + graph.links@[i2].cost);
            }
            assert(dist_table_ok(graph.links@, n, source, dists@));
            assert(prev_table_ok(graph.links@, n, source, prevs@, dists@));
        }
        self.dists_cache.insert(source, dists);
        self.prevs_cache.insert(source, prevs);
    }
}

/// Finite entries of the table are bounded.
pub open spec fn d_bounded(d: Seq<Option<u64>>, n: int, bound: int) -> bool {
    forall|v: int| 0 <= v < n && (#[trigger] d[v]) is Some ==> d[v].unwrap() <= bound
}

/// The entry of `v` was set exactly by relaxing some link out of a settled
/// node.
pub open spec fn reached_through(links: Seq<Link>, d: Seq<Option<u64>>, q: Seq<bool>, v: int) -> bool {
    exists|i2: int|
        0 <= i2 < links.len() && ((#[trigger] links[i2]).to as int) == v && (links[i2].from as int)
            < d.len() && !q[links[i2].from as int] && d[links[i2].from as int] is Some
            && d[v].unwrap() == d[links[i2].from as int].unwrap() + links[i2].cost
}

/// The joint shape of the distance and predecessor tables during and after
/// the search: zero at the source; settled entries finite, minimal among the
/// tentative ones; every finite entry besides the source reached exactly
/// through a settled node; the predecessor table mirroring the distances.
pub open spec fn search_state_ok(
    links: Seq<Link>,
    n: int,
    source: ID,
    d: Seq<Option<u64>>,
    p: Seq<ID>,
    q: Seq<bool>,
) -> bool {
    &&& d.len() == n
    &&& p.len() == n
    &&& q.len() == n
    &&& ((source as int) < n ==> d[source as int] == Some(0u64))
    &&& forall|v: int| 0 <= v < n && !q[v] ==> (#[trigger] d[v]) is Some
    &&& forall|a: int, b: int|
        0 <= a < n && 0 <= b < n && !q[a] && q[b] && (#[trigger] d[b]) is Some ==> (
        #[trigger] d[a]).unwrap() <= d[b].unwrap()
    &&& forall|v: int|
        0 <= v < n && (#[trigger] d[v]) is Some && v != source as int ==> reached_through(
            links,
            d,
            q,
            v,
        )
    &&& forall|v: int|
        0 <= v < n ==> (((#[trigger] p[v]) == NO_PREV) <==> (v == source as int || d[v] is None))
    &&& forall|v: int|
        0 <= v < n && (#[trigger] p[v]) != NO_PREV ==> ((p[v] as int) < n && has_pair(
            links,
            p[v],
            v as ID,
        ) && d[v] is Some && d[p[v] as int] is Some && d[p[v] as int].unwrap() < d[v].unwrap())
}

/// Relax one link out of the node being settled: adopt its distance plus the
/// link cost at the link's target when the target is still unsettled and the
/// sum improves its entry, recording the settled node as predecessor.
#[verifier::rlimit(100)]
#[verifier::spinoff_prover]
fn relax_link(
    dists: &mut Vec<Option<u64>>,
    prevs: &mut Vec<ID>,
    q: &Vec<bool>,
    link: Link,
    u: usize,
    du: u64,
    Ghost(links): Ghost<Seq<Link>>,
    Ghost(n): Ghost<int>,
    Ghost(source): Ghost<ID>,
    Ghost(w): Ghost<int>,
    Ghost(bound): Ghost<int>,
)
    requires
        search_state_ok(links, n, source, old(dists)@, old(prevs)@, q@),
        d_bounded(old(dists)@, n, bound),
        0 <= w < links.len(),
        links[w] == link,
        link.from as int == u as int,
        (u as int) < n,
        (link.to as int) < n,
        1 <= link.cost <= 0x10000,
        !q@[u as int],
        old(dists)@[u as int] is Some,
        old(dists)@[u as int].unwrap() == du,
        du + 0x10000 <= bound,
        bound <= 0xffff_ffff_ffff_ffff,
        n <= 0xffff_ffff,
        (source as int) < n,
        forall|a: int| 0 <= a < n && !q@[a] ==> (#[trigger] old(dists)@[a]).unwrap() <= du,
    ensures
        search_state_ok(links, n, source, final(dists)@, final(prevs)@, q@),
        d_bounded(final(dists)@, n, bound),
        // only the link's target entry can change, and it never grows
        forall|x: int|
            0 <= x < n && x != link.to as int ==> final(dists)@[x] == old(dists)@[x]
                && final(prevs)@[x] == old(prevs)@[x],
        !q@[link.to as int] ==> final(dists)@ == old(dists)@ && final(prevs)@ == old(prevs)@,
        q@[link.to as int] ==> edge_relaxed(link, final(dists)@),
        old(dists)@[link.to as int] is Some ==> final(dists)@[link.to as int] is Some
            && final(dists)@[link.to as int].unwrap() <= old(dists)@[link.to as int].unwrap(),
        forall|a: int| 0 <= a < n && !q@[a] ==> (#[trigger] final(dists)@[a]).unwrap() <= du,
{
    let v = link.to as usize;
    if q[v] {
        let alt = du + (link.cost() as u64);
        let better = match dists[v] {
            Some(dv) => alt < dv,
            None => true,
        };
        if better {
            let ghost d0 = dists@;
            let ghost p0 = prevs@;
            dists[v] = Some(alt);
            prevs[v] = u as u32;
            proof {
                assert(v as int != u as int);
                assert(v as int != source as int) by {
                    // the source entry is zero and the new entry is positive
                    assert(d0[source as int] == Some(0u64));
                }
                assert forall|v2: int|
                    0 <= v2 < n && (#[trigger] dists@[v2]) is Some && v2 != source as int
                        implies reached_through(links, dists@, q@, v2) by {
                    if v2 == v as int {
                        assert(0 <= w < links.len() && ((links[w]).to as int) == v2 && (
                        links[w].from as int) < dists@.len() && !q@[links[w].from as int]
                            && dists@[links[w].from as int] is Some && dists@[v2].unwrap()
                            == dists@[links[w].from as int].unwrap() + links[w].cost);
                    } else {
                        assert(reached_through(links, d0, q@, v2));
                        let i2 = choose|i2: int|
                            0 <= i2 < links.len() && ((#[trigger] links[i2]).to as int) == v2 && (
                            links[i2].from as int) < d0.len() && !q@[links[i2].from as int]
                                && d0[links[i2].from as int] is Some && d0[v2].unwrap()
                                == d0[links[i2].from as int].unwrap() + links[i2].cost;
                        assert(links[i2].from as int != v as int);
                        assert(0 <= i2 < links.len() && ((links[i2]).to as int) == v2 && (
                        links[i2].from as int) < dists@.len() && !q@[links[i2].from as int]
                            && dists@[links[i2].from as int] is Some && dists@[v2].unwrap()
                            == dists@[links[i2].from as int].unwrap() + links[i2].cost);
                    }
                }
                assert forall|v2: int|
                    0 <= v2 < n && (#[trigger] prevs@[v2]) != NO_PREV implies ((prevs@[v2] as int)
                        < n && has_pair(links, prevs@[v2], v2 as ID) && dists@[v2] is Some
                        && dists@[prevs@[v2] as int] is Some && dists@[prevs@[v2] as int].unwrap()
                        < dists@[v2].unwrap()) by {
                    if v2 == v as int {
                        assert(has_pair(links, u as u32, v as ID)) by {
                            assert((links[w]).from == u as u32 && links[w].to == v as ID);
                        }
                    } else {
                        assert(p0[v2] == prevs@[v2]);
                        assert(dists@[v2] == d0[v2]);
                        if p0[v2] != NO_PREV {
                            if p0[v2] as int == v as int {
                                // the predecessor's entry only shrank, which
                                // keeps it strictly below this one
                                assert(d0[v as int] is Some);
                                assert(dists@[v as int].unwrap() < d0[v as int].unwrap());
                            } else {
                                assert(dists@[p0[v2] as int] == d0[p0[v2] as int]);
                            }
                        }
                    }
                }
                assert(dists@[source as int] == Some(0u64));
                assert(forall|v2: int| 0 <= v2 < n && !q@[v2] ==> (#[trigger] dists@[v2]) is Some);
                assert forall|a: int, b: int|
                    0 <= a < n && 0 <= b < n && !q@[a] && q@[b] && (
                    #[trigger] dists@[b]) is Some implies (#[trigger] dists@[a]).unwrap()
                    <= dists@[b].unwrap() by {
                    if b != v as int {
                        assert(d0[b] == dists@[b]);
                    }
                }
                assert forall|v2: int|
                    0 <= v2 < n implies (((#[trigger] prevs@[v2]) == NO_PREV) <==> (v2
                        == source as int || dists@[v2] is None)) by {
                    if v2 != v as int {
                        assert(prevs@[v2] == p0[v2] && dists@[v2] == d0[v2]);
                    }
                }
                assert(search_state_ok(links, n, source, dists@, prevs@, q@));
            }
        }
    }
}

/// Follow a predecessor table back from `target`: the returned list holds the
/// predecessor of the target, then its predecessor, and so on down to the
/// source. It is empty exactly when the target is the source or unreachable.
fn walk_prev_chain(
    prevs: &Vec<ID>,
    target: ID,
    Ghost(links): Ghost<Seq<Link>>,
    Ghost(n): Ghost<int>,
    Ghost(source): Ghost<ID>,
    Ghost(d): Ghost<Seq<Option<u64>>>,
) -> (path: Vec<ID>)
    requires
        prev_table_ok(links, n, source, prevs@, d),
        (target as int) < n,
        (source as int) < n,
    ensures
        path@.len() == 0 <==> (target == source || d[target as int] is None),
        path@.len() > 0 ==> has_pair(links, path@[0], target) && path@.last() == source,
        forall|i: int| 0 < i < path@.len() ==> has_pair(links, #[trigger] path@[i], path@[i - 1]),
{
    let mut path: Vec<ID> = Vec::new();
    let mut next: ID = target;
    loop
        invariant
            prev_table_ok(links, n, source, prevs@, d),
            (target as int) < n,
            (source as int) < n,
            (next as int) < n,
            path@.len() == 0 ==> next == target,
            path@.len() > 0 ==> path@.last() == next && has_pair(links, path@[0], target) && next
                != target,
            path@.len() > 0 ==> d[next as int] is Some && d[target as int] is Some && d[next
                as int].unwrap() < d[target as int].unwrap(),
            path@.len() > 0 ==> prevs@[target as int] != NO_PREV,
            forall|i: int| 0 < i < path@.len() ==> has_pair(links, #[trigger] path@[i], path@[i - 1]),
        ensures
            prevs@[next as int] == NO_PREV,
        decreases (if d[next as int] is Some {
            d[next as int].unwrap() as int
        } else {
            0
        }),
    {
        let prev = prevs[next as usize];
        if prev != NO_PREV {
            next = prev;
            path.push(next);
        } else {
            break ;
        }
    }
    proof {
        if path@.len() == 0 {
            // the walk stopped at the target itself
            assert(prevs@[target as int] == NO_PREV);
        } else {
            // the walk stopped at a node with no predecessor but a finite
            // distance: the source
            assert(prevs@[path@.last() as int] == NO_PREV);
        }
    }
    path
}

} // verus!
