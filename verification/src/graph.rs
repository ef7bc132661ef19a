//! Topology storage: a link list kept sorted lexicographically by (from, to),
//! with adjacency queries by bounded binary search and minimum-spanning-tree
//! extraction.

use vstd::prelude::*;

verus! {

/// Dense node identifier: the nodes of a graph are the integers in [0, node_count).
pub type ID = u32;

/// A directed link `from -> to` with a quality scalar (informational) and a
/// cost scalar (the routing metric; constant 1 per link, so costs measure hops).
/// A bidirectional connection is stored as two links.
#[derive(Clone, Copy, PartialEq, Eq, Structural, Debug)]
pub struct Link {
    pub from: ID,
    pub to: ID,
    pub quality: u16,
    pub cost: u16,
}

/// Strict lexicographic order on directed pairs.
pub open spec fn key_lt(f1: ID, t1: ID, f2: ID, t2: ID) -> bool {
    f1 < f2 || (f1 == f2 && t1 < t2)
}

/// Strict lexicographic order of two links by (from, to).
pub open spec fn pair_lt(a: Link, b: Link) -> bool {
    key_lt(a.from, a.to, b.from, b.to)
}

/// The link list is strictly sorted by (from, to); strictness rules out
/// duplicate pairs.
pub open spec fn links_sorted(s: Seq<Link>) -> bool {
    forall|i: int, j: int| 0 <= i < j < s.len() ==> pair_lt(#[trigger] s[i], #[trigger] s[j])
}

/// Number of links leaving `id`.
pub open spec fn out_degree(s: Seq<Link>, id: ID) -> int {
    s.filter(|l: Link| l.from == id).len() as int
}

/// Some link with the given endpoints is in the list.
pub open spec fn has_pair(s: Seq<Link>, from: ID, to: ID) -> bool {
    exists|i: int| 0 <= i < s.len() && (#[trigger] s[i]).from == from && s[i].to == to
}

/// Some link with the given endpoints and quality is in the list.
pub open spec fn has_pair_q(s: Seq<Link>, from: ID, to: ID, q: u16) -> bool {
    exists|i: int|
        0 <= i < s.len() && (#[trigger] s[i]).from == from && s[i].to == to && s[i].quality == q
}

/// The link connects a and b, in either direction.
pub open spec fn matches_pair(l: Link, a: ID, b: ID) -> bool {
    (l.from == a && l.to == b) || (l.from == b && l.to == a)
}

/// A flat id list read as consecutive (a, b) pairs; a trailing odd element is
/// dropped.
pub open spec fn pair_seq(ids: Seq<ID>) -> Seq<(ID, ID)> {
    Seq::new((ids.len() / 2) as nat, |k: int| (ids[2 * k], ids[2 * k + 1]))
}

/// The link connects one of the (a, b) pairs of the flat id list.
pub open spec fn matches_pair_list(l: Link, ids: Seq<ID>) -> bool {
    exists|k: int|
        0 <= k < pair_seq(ids).len() && matches_pair(
            l,
            (#[trigger] pair_seq(ids)[k]).0,
            pair_seq(ids)[k].1,
        )
}

/// The link, with every identifier above `id` shifted down by one.
pub open spec fn shift_link(l: Link, id: ID) -> Link {
    Link {
        from: if l.from > id {
            (l.from - 1) as ID
        } else {
            l.from
        },
        to: if l.to > id {
            (l.to - 1) as ID
        } else {
            l.to
        },
        quality: l.quality,
        cost: l.cost,
    }
}

/// One node removal at the level of the link list: drop the incident links,
/// then shift every identifier above `id` down by one.
pub open spec fn remove_one(links: Seq<Link>, id: ID) -> Seq<Link> {
    links.filter(|l: Link| l.from != id && l.to != id).map_values(|l: Link| shift_link(l, id))
}

/// The first `k` listed removals applied one after another.
pub open spec fn remove_fold(links: Seq<Link>, ids: Seq<ID>, k: int) -> Seq<Link>
    decreases k,
{
    if k <= 0 {
        links
    } else {
        remove_one(remove_fold(links, ids, k - 1), ids[k - 1])
    }
}

/// `k` listed removals applied from the back of the list forward.
pub open spec fn remove_fold_rev(links: Seq<Link>, ids: Seq<ID>, k: int) -> Seq<Link>
    decreases k,
{
    if k <= 0 {
        links
    } else {
        remove_one(remove_fold_rev(links, ids, k - 1), ids[ids.len() - k])
    }
}

/// The identifiers below `k` with no outgoing link, in ascending order.
pub open spec fn isolated_ids(links: Seq<Link>, k: int) -> Seq<ID>
    decreases k,
{
    if k <= 0 {
        Seq::empty()
    } else {
        isolated_ids(links, k - 1) + (if out_degree(links, (k - 1) as ID) == 0 {
            seq![(k - 1) as ID]
        } else {
            Seq::empty()
        })
    }
}

impl Link {
    pub fn new(from: ID, to: ID, quality: u16) -> (r: Link)
        ensures
            r == (Link { from, to, quality, cost: 1 }),
    {
        Link { from, to, quality, cost: 1 }
    }

    pub fn cost(&self) -> (r: u16)
        ensures
            r == self.cost,
    {
        self.cost
    }

    pub fn bandwidth(&self) -> (r: u16)
        ensures
            r == 1,
    {
        1
    }

    pub fn quality(&self) -> (r: u16)
        ensures
            r == self.quality,
    {
        self.quality
    }

    /// A link with default quality.
    pub fn default(from: ID, to: ID) -> (r: Link)
        ensures
            r == (Link { from, to, quality: 1, cost: 1 }),
    {
        Link { from, to, quality: 1, cost: 1 }
    }

    /// Compare this link's (from, to) pair against the given pair,
    /// lexicographically.
    pub fn cmp(&self, from: ID, to: ID) -> (r: core::cmp::Ordering)
        ensures
            r == core::cmp::Ordering::Less <==> key_lt(self.from, self.to, from, to),
            r == core::cmp::Ordering::Greater <==> key_lt(from, to, self.from, self.to),
            r == core::cmp::Ordering::Equal <==> (self.from == from && self.to == to),
    {
        if self.from > from {
            core::cmp::Ordering::Greater
        } else if self.from < from {
            core::cmp::Ordering::Less
        } else if self.to > to {
            core::cmp::Ordering::Greater
        } else if self.to < to {
            core::cmp::Ordering::Less
        } else {
            core::cmp::Ordering::Equal
        }
    }
}

/// Transitivity of the lexicographic link order.
proof fn lemma_pair_lt_trans(a: Link, b: Link, c: Link)
    requires
        pair_lt(a, b),
        pair_lt(b, c),
    ensures
        pair_lt(a, c),
{
}

/// Every element of a filtered list comes from the original list.
proof fn lemma_filter_element_origin(s: Seq<Link>, p: spec_fn(Link) -> bool, i: int)
    requires
        0 <= i < s.filter(p).len(),
    ensures
        exists|k: int| 0 <= k < s.len() && s[k] == s.filter(p)[i],
        p(s.filter(p)[i]),
    decreases s.len(),
{
    reveal(Seq::filter);
    if s.len() > 0 {
        let rest = s.drop_last();
        if p(s.last()) && i == s.filter(p).len() - 1 {
            assert(s[s.len() - 1] == s.filter(p)[i]);
        } else {
            lemma_filter_element_origin(rest, p, i);
            let k = choose|k: int| 0 <= k < rest.len() && rest[k] == rest.filter(p)[i];
            assert(s[k] == s.filter(p)[i]);
        }
    }
}

/// A sorted link list stays sorted after dropping the elements that fail a
/// predicate.
proof fn lemma_filter_sorted(s: Seq<Link>, p: spec_fn(Link) -> bool)
    requires
        links_sorted(s),
    ensures
        links_sorted(s.filter(p)),
    decreases s.len(),
{
    reveal(Seq::filter);
    if s.len() > 0 {
        let rest = s.drop_last();
        assert(links_sorted(rest)) by {
            assert(forall|i: int| 0 <= i < rest.len() ==> rest[i] == s[i]);
        }
        lemma_filter_sorted(rest, p);
        if p(s.last()) {
            let f = s.filter(p);
            assert(f == rest.filter(p).push(s.last()));
            assert forall|i: int, j: int| 0 <= i < j < f.len() implies pair_lt(f[i], f[j]) by {
                if j == f.len() - 1 {
                    lemma_filter_element_origin(rest, p, i);
                    let k = choose|k: int| 0 <= k < rest.len() && rest[k] == rest.filter(p)[i];
                    assert(f[i] == rest.filter(p)[i]);
                    assert(pair_lt(s[k], s[s.len() - 1]));
                }
            }
        }
    }
}

/// Topology storage designed for fast iteration and neighbor access: a sorted
/// link list plus a dense node count.
#[derive(Clone)]
pub struct Graph {
    pub links: Vec<Link>,
    pub node_count: usize,
}

impl Graph {
    /// A single link is acceptable for this graph: no self-loop, both
    /// endpoints in the dense identifier space, unit cost.
    pub open spec fn link_ok(&self, l: Link) -> bool {
        &&& l.from != l.to
        &&& (l.from as int) < (self.node_count as int)
        &&& (l.to as int) < (self.node_count as int)
        &&& l.cost == 1
    }

    /// Graph invariant: the link list is strictly sorted by (from, to) —
    /// hence duplicate-free — holds no self-loops, and every endpoint lies
    /// below node_count; identifiers fit in `ID`.
    pub open spec fn wf(&self) -> bool {
        &&& links_sorted(self.links@)
        &&& forall|i: int| 0 <= i < self.links@.len() ==> self.link_ok(#[trigger] self.links@[i])
        &&& self.node_count as int <= 0xffff_ffff
    }

    pub fn new() -> (r: Graph)
        ensures
            r.wf(),
            r.node_count == 0,
            r.links@.len() == 0,
    {
        Graph { links: Vec::new(), node_count: 0 }
    }

    pub fn clear(&mut self)
        ensures
            final(self).wf(),
            final(self).node_count == 0,
            final(self).links@.len() == 0,
    {
        self.links.clear();
        self.node_count = 0;
    }

    pub fn node_count(&self) -> (r: usize)
        ensures
            r == self.node_count,
    {
        self.node_count
    }

    pub fn link_count(&self) -> (r: usize)
        ensures
            r == self.links@.len(),
    {
        self.links.len()
    }

    /// Grow the dense identifier space by `count` fresh, unconnected nodes.
    pub fn add_nodes(&mut self, count: u32)
        requires
            old(self).wf(),
            old(self).node_count as int + count as int <= 0xffff_ffff,
        ensures
            final(self).wf(),
            final(self).node_count == old(self).node_count + count as usize,
            final(self).links@ == old(self).links@,
    {
        self.node_count += count as usize;
    }

    /// Index of the link (from, to) in the sorted list, if present.
    fn link_idx(&self, from: ID, to: ID) -> (r: Option<usize>)
        requires
            self.wf(),
        ensures
            match r {
                Some(i) => i < self.links@.len() && self.links@[i as int].from == from
                    && self.links@[i as int].to == to,
                None => !has_pair(self.links@, from, to),
            },
    {
        let mut lo: usize = 0;
        let mut hi: usize = self.links.len();
        while lo < hi
            invariant
                self.wf(),
                lo <= hi <= self.links@.len(),
                forall|k: int| 0 <= k < lo ==> key_lt(
                    (#[trigger] self.links@[k]).from,
                    self.links@[k].to,
                    from,
                    to,
                ),
                forall|k: int| hi <= k < self.links@.len() ==> key_lt(
                    from,
                    to,
                    (#[trigger] self.links@[k]).from,
                    self.links@[k].to,
                ),
            decreases hi - lo,
        {
            let mid = lo + (hi - lo) / 2;
            let l = self.links[mid];
            if l.from < from || (l.from == from && l.to < to) {
                lo = mid + 1;
            } else if l.from == from && l.to == to {
                return Some(mid);
            } else {
                proof {
                    assert forall|k: int| mid <= k < self.links@.len() implies key_lt(
                        from,
                        to,
                        (#[trigger] self.links@[k]).from,
                        self.links@[k].to,
                    ) by {
                        if k > mid {
                            assert(pair_lt(self.links@[mid as int], self.links@[k]));
                        }
                    }
                }
                hi = mid;
            }
        }
        proof {
            assert forall|i: int| 0 <= i < self.links@.len() implies !((#[trigger] self.links@[i]).from
                == from && self.links@[i].to == to) by {}
        }
        return None;
    }

    /// Whether the directed link (from, to) exists.
    pub fn has_link(&self, from: ID, to: ID) -> (r: bool)
        requires
            self.wf(),
        ensures
            r == has_pair(self.links@, from, to),
    {
        if let Some(i) = self.link_idx(from, to) {
            proof {
                assert(has_pair(self.links@, from, to)) by {
                    assert(self.links@[i as int].from == from && self.links@[i as int].to == to);
                }
            }
            true
        } else {
            false
        }
    }

    /// Whether a link joins the two nodes in either direction.
    pub fn has_any_link(&self, from: ID, to: ID) -> (r: bool)
        requires
            self.wf(),
        ensures
            r == (has_pair(self.links@, from, to) || has_pair(self.links@, to, from)),
    {
        self.has_link(from, to) || self.has_link(to, from)
    }

    /// A copy of the stored link (from, to), if present. An absent pair
    /// yields None, never an error.
    pub fn get_link(&self, from: ID, to: ID) -> (r: Option<Link>)
        requires
            self.wf(),
        ensures
            match r {
                Some(l) => l.from == from && l.to == to && self.links@.contains(l),
                None => !has_pair(self.links@, from, to),
            },
    {
        if let Some(idx) = self.link_idx(from, to) {
            let l = self.links[idx];
            proof {
                assert(self.links@.contains(l)) by {
                    assert(self.links@[idx as int] == l);
                }
            }
            Some(l)
        } else {
            None
        }
    }

    /// Insert the directed link (from, to) at its sorted position, or update
    /// the stored quality if the pair already exists. A self-loop request is
    /// ignored. Endpoints outside the identifier space are a caller bug.
    pub fn add_link(&mut self, from: ID, to: ID, tq: u16)
        requires
            old(self).wf(),
            (from as int) < (old(self).node_count as int),
            (to as int) < (old(self).node_count as int),
        ensures
            final(self).wf(),
            final(self).node_count == old(self).node_count,
            from == to ==> final(self).links@ == old(self).links@,
            from != to ==> has_pair(final(self).links@, from, to),
            // every link now stored is the requested one or was already there
            forall|i: int| 0 <= i < final(self).links@.len() ==> {
                let l = #[trigger] final(self).links@[i];
                if l.from == from && l.to == to {
                    l.quality == tq && l.cost == 1
                } else {
                    old(self).links@.contains(l)
                }
            },
            // every link with a different pair is kept unchanged
            forall|i: int| 0 <= i < old(self).links@.len() ==> {
                let l = #[trigger] old(self).links@[i];
                (l.from != from || l.to != to) ==> final(self).links@.contains(l)
            },
            // no connection is ever lost
            forall|x: ID, y: ID| #[trigger] has_pair(old(self).links@, x, y) ==> has_pair(
                final(self).links@,
                x,
                y,
            ),
    {
        if from == to {
            return ;
        }
        let ghost old_links = self.links@;
        let mut lo: usize = 0;
        let mut hi: usize = self.links.len();
        while lo < hi
            invariant
                self.wf(),
                lo <= hi <= self.links@.len(),
                forall|k: int| 0 <= k < lo ==> key_lt(
                    (#[trigger] self.links@[k]).from,
                    self.links@[k].to,
                    from,
                    to,
                ),
                forall|k: int| hi <= k < self.links@.len() ==> !key_lt(
                    (#[trigger] self.links@[k]).from,
                    self.links@[k].to,
                    from,
                    to,
                ),
            decreases hi - lo,
        {
            let mid = lo + (hi - lo) / 2;
            let l = self.links[mid];
            if l.from < from || (l.from == from && l.to < to) {
                lo = mid + 1;
            } else {
                hi = mid;
            }
        }
        if lo < self.links.len() && self.links[lo].from == from && self.links[lo].to == to {
            let mut l = self.links[lo];
            l.quality = tq;
            self.links[lo] = l;
            proof {
                assert forall|i: int| 0 <= i < old_links.len() implies {
                    let l2 = #[trigger] old_links[i];
                    (l2.from != from || l2.to != to) ==> self.links@.contains(l2)
                } by {
                    if old_links[i].from != from || old_links[i].to != to {
                        assert(self.links@[i] == old_links[i]);
                    }
                }
                assert(has_pair(self.links@, from, to)) by {
                    assert(self.links@[lo as int].from == from && self.links@[lo as int].to == to);
                }
                assert forall|i: int| 0 <= i < self.links@.len() implies {
                    let l2 = #[trigger] self.links@[i];
                    (l2.from == from && l2.to == to) || old_links.contains(l2)
                } by {
                    if i != lo {
                        assert(self.links@[i] == old_links[i]);
                        assert(old_links.contains(old_links[i]));
                    }
                }
                assert forall|x: ID, y: ID| #[trigger] has_pair(old_links, x, y) implies has_pair(
                    self.links@,
                    x,
                    y,
                ) by {
                    let i = choose|i: int| 0 <= i < old_links.len() && (#[trigger] old_links[i]).from
                        == x && old_links[i].to == y;
                    assert(self.links@[i].from == x && self.links@[i].to == y);
                }
            }
        } else {
            let nl = Link::new(from, to, tq);
            self.links.insert(lo, nl);
            proof {
                // strict order around the insertion point
                assert forall|i: int, j: int| 0 <= i < j < self.links@.len() implies pair_lt(
                    self.links@[i],
                    self.links@[j],
                ) by {
                    if j < lo {
                        assert(self.links@[i] == old_links[i] && self.links@[j] == old_links[j]);
                    } else if i > lo {
                        assert(self.links@[i] == old_links[i - 1]);
                        assert(self.links@[j] == old_links[j - 1]);
                    } else if i < lo && j == lo {
                        assert(self.links@[i] == old_links[i]);
                    } else if i == lo && j > lo {
                        assert(self.links@[j] == old_links[j - 1]);
                        // links at or past the insertion point are not below
                        // (from, to) and are not equal to it
                        assert(!key_lt(old_links[j - 1].from, old_links[j - 1].to, from, to));
                        assert(!(old_links[j - 1].from == from && old_links[j - 1].to == to));
                    } else if i < lo && j > lo {
                        assert(self.links@[i] == old_links[i]);
                        assert(self.links@[j] == old_links[j - 1]);
                    }
                }
                assert(has_pair(self.links@, from, to)) by {
                    assert(self.links@[lo as int].from == from && self.links@[lo as int].to == to);
                }
                assert forall|i: int| 0 <= i < old_links.len() implies self.links@.contains(
                    #[trigger] old_links[i],
                ) by {
                    if i < lo {
                        assert(self.links@[i] == old_links[i]);
                    } else {
                        assert(self.links@[i + 1] == old_links[i]);
                    }
                }
                assert forall|i: int| 0 <= i < self.links@.len() implies {
                    let l2 = #[trigger] self.links@[i];
                    (l2.from == from && l2.to == to) || old_links.contains(l2)
                } by {
                    if i < lo {
                        assert(self.links@[i] == old_links[i]);
                        assert(old_links.contains(old_links[i]));
                    } else if i > lo {
                        assert(self.links@[i] == old_links[i - 1]);
                        assert(old_links.contains(old_links[i - 1]));
                    }
                }
                assert forall|x: ID, y: ID| #[trigger] has_pair(old_links, x, y) implies has_pair(
                    self.links@,
                    x,
                    y,
                ) by {
                    let i = choose|i: int| 0 <= i < old_links.len() && (#[trigger] old_links[i]).from
                        == x && old_links[i].to == y;
                    if i < lo {
                        assert(self.links@[i].from == x && self.links@[i].to == y);
                    } else {
                        assert(self.links@[i + 1].from == x && self.links@[i + 1].to == y);
                    }
                }
            }
        }
    }

    /// Insert the bidirectional connection between a and b: two directed
    /// links of maximal quality.
    pub fn connect(&mut self, a: ID, b: ID)
        requires
            old(self).wf(),
            (a as int) < (old(self).node_count as int),
            (b as int) < (old(self).node_count as int),
        ensures
            final(self).wf(),
            final(self).node_count == old(self).node_count,
            a != b ==> has_pair_q(final(self).links@, a, b, 0xffff) && has_pair_q(
                final(self).links@,
                b,
                a,
                0xffff,
            ),
            // every link now stored is one of the two requested — stored with
            // maximal quality — or was already there
            forall|i: int| 0 <= i < final(self).links@.len() ==> {
                let l = #[trigger] final(self).links@[i];
                ((l.from == a && l.to == b) || (l.from == b && l.to == a)) ==> l.quality == 0xffff
            },
            forall|i: int| 0 <= i < final(self).links@.len() ==> {
                let l = #[trigger] final(self).links@[i];
                (l.from == a && l.to == b) || (l.from == b && l.to == a)
                    || old(self).links@.contains(l)
            },
            // every link that is not one of the two requested pairs is kept
            forall|i: int| 0 <= i < old(self).links@.len() ==> {
                let l = #[trigger] old(self).links@[i];
                (!(l.from == a && l.to == b) && !(l.from == b && l.to == a))
                    ==> final(self).links@.contains(l)
            },
            // no connection is ever lost
            forall|x: ID, y: ID| #[trigger] has_pair(old(self).links@, x, y) ==> has_pair(
                final(self).links@,
                x,
                y,
            ),
    {
        let ghost g0 = self.links@;
        self.add_link(a, b, u16::MAX);
        let ghost g1 = self.links@;
        self.add_link(b, a, u16::MAX);
        proof {
            assert forall|i: int| 0 <= i < g1.len() implies {
                let l = #[trigger] g1[i];
                (l.from == a && l.to == b) ==> l.quality == 0xffff
            } by {}
            if a != b {
                assert(has_pair(g1, a, b));
                let i = choose|i: int| 0 <= i < g1.len() && (#[trigger] g1[i]).from == a
                    && g1[i].to == b;
                assert(g1[i].quality == 0xffff);
                assert(self.links@.contains(g1[i]));
                let i2 = choose|i2: int| 0 <= i2 < self.links@.len() && self.links@[i2] == g1[i];
                assert(has_pair_q(self.links@, a, b, 0xffff)) by {
                    assert(self.links@[i2].from == a && self.links@[i2].to == b
                        && self.links@[i2].quality == 0xffff);
                }
                assert(has_pair_q(self.links@, b, a, 0xffff));
            }
            assert forall|i: int| 0 <= i < self.links@.len() implies {
                let l = #[trigger] self.links@[i];
                ((l.from == a && l.to == b) || (l.from == b && l.to == a)) ==> l.quality == 0xffff
            } by {
                let l = self.links@[i];
                if l.from == a && l.to == b && !(l.from == b && l.to == a) {
                    // kept unchanged from the first insertion
                    assert(g1.contains(l));
                    let j = choose|j: int| 0 <= j < g1.len() && g1[j] == l;
                }
            }
            assert forall|i: int| 0 <= i < self.links@.len() implies {
                let l = #[trigger] self.links@[i];
                (l.from == a && l.to == b) || (l.from == b && l.to == a) || g0.contains(l)
            } by {
                let l = self.links@[i];
                if !(l.from == b && l.to == a) {
                    assert(g1.contains(l));
                }
            }
            assert forall|i: int| 0 <= i < g0.len() implies {
                let l = #[trigger] g0[i];
                (!(l.from == a && l.to == b) && !(l.from == b && l.to == a)) ==> self.links@.contains(
                    l,
                )
            } by {
                let l = g0[i];
                if !(l.from == a && l.to == b) && !(l.from == b && l.to == a) {
                    assert(g1.contains(l));
                    let j = choose|j: int| 0 <= j < g1.len() && g1[j] == l;
                }
            }
        }
    }

    /// Binary search for any index whose link leaves `id`.
    fn neighbor_seed(&self, id: ID) -> (r: Option<usize>)
        requires
            self.wf(),
        ensures
            match r {
                Some(i) => i < self.links@.len() && self.links@[i as int].from == id,
                None => forall|k: int|
                    0 <= k < self.links@.len() ==> (#[trigger] self.links@[k]).from != id,
            },
    {
        let mut lo: usize = 0;
        let mut hi: usize = self.links.len();
        while lo < hi
            invariant
                self.wf(),
                lo <= hi <= self.links@.len(),
                forall|k: int| 0 <= k < lo ==> (#[trigger] self.links@[k]).from < id,
                forall|k: int| hi <= k < self.links@.len() ==> (#[trigger] self.links@[k]).from
                    > id,
            decreases hi - lo,
        {
            let mid = lo + (hi - lo) / 2;
            let f = self.links[mid].from;
            if f < id {
                proof {
                    assert forall|k: int| 0 <= k < mid + 1 implies (#[trigger] self.links@[k]).from
                        < id by {
                        if k < mid {
                            assert(pair_lt(self.links@[k], self.links@[mid as int]));
                        }
                    }
                }
                lo = mid + 1;
            } else if f > id {
                proof {
                    assert forall|k: int| mid <= k < self.links@.len() implies (
                    #[trigger] self.links@[k]).from > id by {
                        if k > mid {
                            assert(pair_lt(self.links@[mid as int], self.links@[k]));
                        }
                    }
                }
                hi = mid;
            } else {
                return Some(mid);
            }
        }
        None
    }

    /// The block of links leaving `id`: a contiguous slice of the sorted link
    /// list holding exactly the links whose `from` equals `id`. An absent or
    /// isolated node yields an empty slice, never an error.
    pub fn get_neighbors(&self, id: ID) -> (r: &[Link])
        requires
            self.wf(),
        ensures
            forall|i: int| 0 <= i < r@.len() ==> (#[trigger] r@[i]).from == id
                && self.links@.contains(r@[i]),
            exists|start: int|
                {
                    &&& 0 <= start
                    &&& start + r@.len() <= self.links@.len()
                    &&& r@ == #[trigger] self.links@.subrange(start, start + r@.len())
                    &&& forall|k: int| 0 <= k < self.links@.len() ==> ((
                    #[trigger] self.links@[k]).from == id <==> start <= k < start + r@.len())
                },
    {
        let found = self.neighbor_seed(id);
        match found {
            None => {
                let r = vstd::slice::slice_subrange(self.links.as_slice(), 0, 0);
                proof {
                    assert(r@ == self.links@.subrange(0, 0));
                    assert forall|k: int| 0 <= k < self.links@.len() implies !((
                    #[trigger] self.links@[k]).from == id) by {}
                    assert(0 <= 0 && 0 + r@.len() <= self.links@.len() && r@
                        == self.links@.subrange(0, 0 + r@.len() as int) && forall|k: int|
                        0 <= k < self.links@.len() ==> ((#[trigger] self.links@[k]).from == id
                            <==> 0 <= k < 0 + r@.len()));
                }
                r
            },
            Some(idx) => {
                proof {
                    // idx is a valid vector index, so idx + 1 fits in usize
                    assert(idx < self.links.len());
                }
                let mut start = idx;
                while start > 0 && self.links[start - 1].from == id
                    invariant
                        self.wf(),
                        start <= idx < self.links@.len(),
                        forall|k: int| start <= k <= idx ==> (#[trigger] self.links@[k]).from
                            == id,
                    decreases start,
                {
                    start -= 1;
                }
                let mut end = idx + 1;
                while end < self.links.len() && self.links[end].from == id
                    invariant
                        self.wf(),
                        start <= idx < end <= self.links@.len(),
                        forall|k: int| start <= k < end ==> (#[trigger] self.links@[k]).from
                            == id,
                    decreases self.links@.len() - end,
                {
                    end += 1;
                }
                let r = vstd::slice::slice_subrange(self.links.as_slice(), start, end);
                proof {
                    assert forall|k: int| 0 <= k < start implies (#[trigger] self.links@[k]).from
                        != id by {
                        assert(self.links@[start - 1].from != id);
                        assert(pair_lt(self.links@[start - 1], self.links@[start as int]));
                        if k < start - 1 {
                            assert(pair_lt(self.links@[k], self.links@[start - 1]));
                        }
                    }
                    assert forall|k: int| end <= k < self.links@.len() implies (
                    #[trigger] self.links@[k]).from != id by {
                        assert(self.links@[end as int].from != id);
                        assert(pair_lt(self.links@[end - 1], self.links@[end as int]));
                        if k > end {
                            assert(pair_lt(self.links@[end as int], self.links@[k]));
                        }
                    }
                    assert(start as int + r@.len() <= self.links@.len() && r@
                        == self.links@.subrange(start as int, start as int + r@.len() as int)
                        && forall|k: int|
                        0 <= k < self.links@.len() ==> ((#[trigger] self.links@[k]).from == id
                            <==> start <= k < start as int + r@.len()));
                    assert forall|i: int| 0 <= i < r@.len() implies (#[trigger] r@[i]).from == id
                        && self.links@.contains(r@[i]) by {
                        assert(r@[i] == self.links@[start + i]);
                    }
                }
                r
            },
        }
    }

    /// Number of links leaving `id`: the length of its neighbor block.
    pub fn get_node_degree(&self, id: ID) -> (r: u32)
        requires
            self.wf(),
        ensures
            r as int == out_degree(self.links@, id),
    {
        let ns = self.get_neighbors(id);
        proof {
            let start = choose|start: int|
                {
                    &&& 0 <= start
                    &&& start + ns@.len() <= self.links@.len()
                    &&& ns@ == #[trigger] self.links@.subrange(start, start + ns@.len())
                    &&& forall|k: int| 0 <= k < self.links@.len() ==> ((
                    #[trigger] self.links@[k]).from == id <==> start <= k < start + ns@.len())
                };
            lemma_block_is_filter(self.links@, id, start, start + ns@.len());
            if ns@.len() > 0 {
                lemma_to_incr(self.links@, start, ns@.len() - 1);
                assert(self.links@[start + ns@.len() - 1].to < self.node_count as int);
            }
        }
        ns.len() as u32
    }

    /// Whether every stored link has its reverse stored as well.
    pub fn is_bidirectional(&self) -> (r: bool)
        requires
            self.wf(),
        ensures
            r == forall|i: int|
                0 <= i < self.links@.len() ==> has_pair(
                    self.links@,
                    (#[trigger] self.links@[i]).to,
                    self.links@[i].from,
                ),
    {
        let mut i: usize = 0;
        while i < self.links.len()
            invariant
                self.wf(),
                i <= self.links@.len(),
                forall|k: int|
                    0 <= k < i ==> has_pair(
                        self.links@,
                        (#[trigger] self.links@[k]).to,
                        self.links@[k].from,
                    ),
            decreases self.links@.len() - i,
        {
            let l = self.links[i];
            if !self.has_link(l.to, l.from) {
                return false;
            }
            i += 1;
        }
        true
    }

    /// Coincides with `is_bidirectional`: every stored link must have its
    /// reverse stored.
    pub fn is_directed(&self) -> (r: bool)
        requires
            self.wf(),
        ensures
            r == forall|i: int|
                0 <= i < self.links@.len() ==> has_pair(
                    self.links@,
                    (#[trigger] self.links@[i]).to,
                    self.links@[i].from,
                ),
    {
        self.is_bidirectional()
    }

    /// Whether the stored link list satisfies the graph invariant's
    /// sortedness, identifier-range and self-loop-freedom conditions.
    pub fn is_valid(&self) -> (r: bool)
        requires
            self.node_count as int <= 0xffff_ffff,
        ensures
            r == (links_sorted(self.links@) && forall|i: int|
                0 <= i < self.links@.len() ==> (#[trigger] self.links@[i]).from
                    < self.node_count as int && self.links@[i].to < self.node_count as int
                    && self.links@[i].from != self.links@[i].to),
    {
        let mut i: usize = 0;
        while i < self.links.len()
            invariant
                self.node_count as int <= 0xffff_ffff,
                i <= self.links@.len(),
                forall|k: int|
                    0 <= k < i ==> (#[trigger] self.links@[k]).from < self.node_count as int
                        && self.links@[k].to < self.node_count as int && self.links@[k].from
                        != self.links@[k].to,
                forall|k: int| 0 < k < i ==> pair_lt(self.links@[k - 1], #[trigger] self.links@[k]),
            decreases self.links@.len() - i,
        {
            let l = self.links[i];
            if (l.to as usize) >= self.node_count || (l.from as usize) >= self.node_count
                || l.from == l.to {
                return false;
            }
            if i > 0 {
                let prev = self.links[i - 1];
                if !(l.from > prev.from || (l.from == prev.from && l.to > prev.to)) {
                    proof {
                        assert(!pair_lt(self.links@[i - 1], self.links@[i as int]));
                    }
                    return false;
                }
            }
            i += 1;
        }
        proof {
            lemma_adjacent_sorted(self.links@);
        }
        true
    }

    /// Whether every node has the same number of outgoing links.
    pub fn is_regular(&self) -> (r: bool)
        requires
            self.wf(),
        ensures
            r == forall|a: ID, b: ID|
                (a as int) < (self.node_count as int) && (b as int) < (self.node_count as int)
                    ==> #[trigger] out_degree(self.links@, a) == #[trigger] out_degree(
                    self.links@,
                    b,
                ),
    {
        if self.node_count == 0 {
            return true;
        }
        let d0 = self.get_node_degree(0);
        let mut id: usize = 1;
        while id < self.node_count
            invariant
                self.wf(),
                0 < self.node_count,
                1 <= id <= self.node_count,
                d0 as int == out_degree(self.links@, 0),
                forall|a: ID| (a as int) < (id as int) ==> #[trigger] out_degree(self.links@, a)
                    == d0 as int,
            decreases self.node_count - id,
        {
            if self.get_node_degree(id as u32) != d0 {
                return false;
            }
            id += 1;
        }
        true
    }

    /// Remove all stored links; the node count is kept.
    pub fn clear_links(&mut self)
        ensures
            final(self).wf() || old(self).node_count as int > 0xffff_ffff,
            final(self).links@.len() == 0,
            final(self).node_count == old(self).node_count,
    {
        self.links.clear();
    }

    /// Whether the link connects one of the (a, b) pairs of the flat id list.
    fn link_matches_any(l: &Link, ids: &Vec<ID>) -> (r: bool)
        requires
            ids@.len() % 2 == 0,
        ensures
            r == matches_pair_list(*l, ids@),
    {
        let mut k: usize = 0;
        while k + 1 < ids.len()
            invariant
                ids@.len() % 2 == 0,
                k % 2 == 0,
                k <= ids@.len(),
                forall|k2: int|
                    0 <= k2 < (k as int) / 2 ==> !matches_pair(
                        *l,
                        (#[trigger] pair_seq(ids@)[k2]).0,
                        pair_seq(ids@)[k2].1,
                    ),
            decreases ids@.len() - k,
        {
            let a = ids[k];
            let b = ids[k + 1];
            if (l.from == a && l.to == b) || (l.from == b && l.to == a) {
                proof {
                    let kk = (k as int) / 2;
                    assert(pair_seq(ids@)[kk] == (ids@[2 * kk], ids@[2 * kk + 1]));
                }
                return true;
            }
            k += 2;
        }
        proof {
            assert((k as int) / 2 == pair_seq(ids@).len());
        }
        false
    }

    /// Remove, for each consecutive (a, b) pair of the flat id list, every
    /// stored link between a and b, in either direction. An odd-length list
    /// is a caller bug.
    pub fn del_links(&mut self, links: &Vec<ID>)
        requires
            old(self).wf(),
            links@.len() % 2 == 0,
        ensures
            final(self).wf(),
            final(self).node_count == old(self).node_count,
            final(self).links@ == old(self).links@.filter(
                |l: Link| !matches_pair_list(l, links@),
            ),
    {
        let ghost pred = |l: Link| !matches_pair_list(l, links@);
        let mut kept: Vec<Link> = Vec::new();
        let mut i: usize = 0;
        while i < self.links.len()
            invariant
                self.wf(),
                links@.len() % 2 == 0,
                i <= self.links@.len(),
                pred == (|l: Link| !matches_pair_list(l, links@)),
                kept@ == self.links@.subrange(0, i as int).filter(pred),
            decreases self.links@.len() - i,
        {
            let l = self.links[i];
            let ghost prefix = self.links@.subrange(0, i as int);
            if !Self::link_matches_any(&l, links) {
                kept.push(l);
            }
            proof {
                reveal(Seq::filter);
                let prefix2 = self.links@.subrange(0, i as int + 1);
                assert(prefix2.drop_last() =~= prefix);
                assert(prefix2.last() == l);
                assert(kept@ == prefix2.filter(pred));
            }
            i += 1;
        }
        proof {
            assert(self.links@.subrange(0, self.links@.len() as int) =~= self.links@);
        }
        let ghost old_links = self.links@;
        self.links = kept;
        proof {
            lemma_filter_sorted(old_links, pred);
            assert forall|i2: int| 0 <= i2 < self.links@.len() implies self.link_ok(
                #[trigger] self.links@[i2],
            ) by {
                lemma_filter_element_origin(old_links, pred, i2);
            }
        }
    }

    /// Remove the links between a and b, in either direction.
    pub fn del_link(&mut self, a: ID, b: ID)
        requires
            old(self).wf(),
        ensures
            final(self).wf(),
            final(self).node_count == old(self).node_count,
            final(self).links@ == old(self).links@.filter(|l: Link| !matches_pair(l, a, b)),
    {
        let mut ids: Vec<ID> = Vec::new();
        ids.push(a);
        ids.push(b);
        let ghost g0 = self.links@;
        self.del_links(&ids);
        proof {
            assert forall|l: Link| true implies (!matches_pair_list(l, ids@)) == (!matches_pair(
                l,
                a,
                b,
            )) by {
                assert(pair_seq(ids@).len() == 1);
                assert(pair_seq(ids@)[0] == (ids@[0], ids@[1]));
            }
            lemma_filter_congruent(
                g0,
                |l: Link| !matches_pair_list(l, ids@),
                |l: Link| !matches_pair(l, a, b),
            );
        }
    }

    /// Remove every link between any two of the listed nodes, in either
    /// direction.
    pub fn disconnect_nodes(&mut self, ids: &Vec<ID>)
        requires
            old(self).wf(),
        ensures
            final(self).wf(),
            final(self).node_count == old(self).node_count,
            final(self).links@ == old(self).links@.filter(
                |l: Link| !(ids@.contains(l.from) && ids@.contains(l.to)),
            ),
    {
        let n = ids.len();
        let mut flat: Vec<ID> = Vec::new();
        let mut ai: usize = 0;
        while ai < n
            invariant
                n == ids@.len(),
                flat@.len() % 2 == 0,
                ai <= n,
                // every flat pair is a pair of listed nodes
                forall|k: int|
                    0 <= k < pair_seq(flat@).len() ==> ids@.contains(
                        (#[trigger] pair_seq(flat@)[k]).0,
                    ) && ids@.contains(pair_seq(flat@)[k].1),
                // every processed ordered pair of listed nodes occurs
                forall|i2: int, j2: int|
                    0 <= i2 < ai && 0 <= j2 < n ==> flat_has_pair(flat@, ids@[i2], ids@[j2]),
            decreases n - ai,
        {
            let a = ids[ai];
            let mut bi: usize = 0;
            while bi < n
                invariant
                    n == ids@.len(),
                    flat@.len() % 2 == 0,
                    ai < n,
                    bi <= n,
                    a == ids@[ai as int],
                    forall|k: int|
                        0 <= k < pair_seq(flat@).len() ==> ids@.contains(
                            (#[trigger] pair_seq(flat@)[k]).0,
                        ) && ids@.contains(pair_seq(flat@)[k].1),
                    forall|i2: int, j2: int|
                        0 <= i2 < ai && 0 <= j2 < n ==> flat_has_pair(flat@, ids@[i2], ids@[j2]),
                    forall|j2: int| 0 <= j2 < bi ==> flat_has_pair(flat@, ids@[ai as int], ids@[j2]),
                decreases n - bi,
            {
                let b = ids[bi];
                let ghost f0 = flat@;
                flat.push(a);
                flat.push(b);
                proof {
                    assert(pair_seq(flat@) =~= pair_seq(f0).push((a, b)));
                    assert forall|i2: int, j2: int|
                        0 <= i2 < ai && 0 <= j2 < n implies flat_has_pair(
                        flat@,
                        ids@[i2],
                        ids@[j2],
                    ) by {
                        assert(flat_has_pair(f0, ids@[i2], ids@[j2]));
                        let k = choose|k: int|
                            0 <= k < pair_seq(f0).len() && (#[trigger] pair_seq(f0)[k]) == (
                            ids@[i2],
                            ids@[j2],
                        );
                        assert(pair_seq(flat@)[k] == (ids@[i2], ids@[j2]));
                    }
                    assert forall|j2: int| 0 <= j2 < bi + 1 implies flat_has_pair(
                        flat@,
                        ids@[ai as int],
                        ids@[j2],
                    ) by {
                        if j2 < bi {
                            assert(flat_has_pair(f0, ids@[ai as int], ids@[j2]));
                            let k = choose|k: int|
                                0 <= k < pair_seq(f0).len() && (#[trigger] pair_seq(f0)[k]) == (
                                ids@[ai as int],
                                ids@[j2],
                            );
                            assert(pair_seq(flat@)[k] == (ids@[ai as int], ids@[j2]));
                        } else {
                            assert(pair_seq(flat@)[pair_seq(f0).len() as int] == (a, b));
                        }
                    }
                    assert(ids@.contains(a)) by {
                        assert(ids@[ai as int] == a);
                    }
                    assert(ids@.contains(b)) by {
                        assert(ids@[bi as int] == b);
                    }
                }
                bi += 1;
            }
            ai += 1;
        }
        let ghost g0 = self.links@;
        self.del_links(&flat);
        proof {
            assert forall|l: Link| true implies (!matches_pair_list(l, flat@)) == (!(ids@.contains(
                l.from,
            ) && ids@.contains(l.to))) by {
                if matches_pair_list(l, flat@) {
                    let k = choose|k: int|
                        0 <= k < pair_seq(flat@).len() && matches_pair(
                            l,
                            (#[trigger] pair_seq(flat@)[k]).0,
                            pair_seq(flat@)[k].1,
                        );
                }
                if ids@.contains(l.from) && ids@.contains(l.to) {
                    let i2 = choose|i2: int| 0 <= i2 < ids@.len() && ids@[i2] == l.from;
                    let j2 = choose|j2: int| 0 <= j2 < ids@.len() && ids@[j2] == l.to;
                    assert(flat_has_pair(flat@, ids@[i2], ids@[j2]));
                    let k = choose|k: int|
                        0 <= k < pair_seq(flat@).len() && (#[trigger] pair_seq(flat@)[k]) == (
                        ids@[i2],
                        ids@[j2],
                    );
                    assert(matches_pair(l, pair_seq(flat@)[k].0, pair_seq(flat@)[k].1));
                }
            }
            lemma_filter_congruent(
                g0,
                |l: Link| !matches_pair_list(l, flat@),
                |l: Link| !(ids@.contains(l.from) && ids@.contains(l.to)),
            );
        }
    }

    /// Insert the bidirectional connection between every two distinct listed
    /// nodes.
    pub fn connect_nodes(&mut self, ids: &Vec<ID>)
        requires
            old(self).wf(),
            forall|i: int| 0 <= i < ids@.len() ==> (#[trigger] ids@[i] as int) < (old(
                self,
            ).node_count as int),
        ensures
            final(self).wf(),
            final(self).node_count == old(self).node_count,
            forall|i: int, j: int|
                0 <= i < ids@.len() && 0 <= j < ids@.len() && ids@[i] != ids@[j] ==> has_pair_q(
                    final(self).links@,
                    #[trigger] ids@[i],
                    #[trigger] ids@[j],
                    0xffff,
                ),
            forall|x: ID, y: ID| #[trigger] has_pair(old(self).links@, x, y) ==> has_pair(
                final(self).links@,
                x,
                y,
            ),
            // every link now stored connects two listed nodes or was already there
            forall|i: int| 0 <= i < final(self).links@.len() ==> {
                let l = #[trigger] final(self).links@[i];
                (ids@.contains(l.from) && ids@.contains(l.to)) || old(self).links@.contains(l)
            },
    {
        let n = ids.len();
        let mut ai: usize = 0;
        while ai < n
            invariant
                n == ids@.len(),
                self.wf(),
                self.node_count == old(self).node_count,
                forall|i: int| 0 <= i < ids@.len() ==> (#[trigger] ids@[i] as int) < (
                self.node_count as int),
                forall|i: int, j: int|
                    0 <= i < ai && 0 <= j < n && ids@[i] != ids@[j] ==> has_pair_q(
                        self.links@,
                        #[trigger] ids@[i],
                        #[trigger] ids@[j],
                        0xffff,
                    ),
                forall|x: ID, y: ID| #[trigger] has_pair(old(self).links@, x, y) ==> has_pair(
                    self.links@,
                    x,
                    y,
                ),
                forall|i: int| 0 <= i < self.links@.len() ==> {
                    let l = #[trigger] self.links@[i];
                    (ids@.contains(l.from) && ids@.contains(l.to)) || old(self).links@.contains(l)
                },
            decreases n - ai,
        {
            let a = ids[ai];
            let mut bi: usize = 0;
            while bi < n
                invariant
                    n == ids@.len(),
                    self.wf(),
                    self.node_count == old(self).node_count,
                    ai < n,
                    bi <= n,
                    a == ids@[ai as int],
                    forall|i: int| 0 <= i < ids@.len() ==> (#[trigger] ids@[i] as int) < (
                    self.node_count as int),
                    forall|i: int, j: int|
                        0 <= i < ai && 0 <= j < n && ids@[i] != ids@[j] ==> has_pair_q(
                            self.links@,
                            #[trigger] ids@[i],
                            #[trigger] ids@[j],
                            0xffff,
                        ),
                    forall|j: int|
                        0 <= j < bi && ids@[ai as int] != ids@[j] ==> has_pair_q(
                            self.links@,
                            ids@[ai as int],
                            #[trigger] ids@[j],
                            0xffff,
                        ),
                    forall|x: ID, y: ID| #[trigger] has_pair(old(self).links@, x, y) ==> has_pair(
                        self.links@,
                        x,
                        y,
                    ),
                    forall|i: int| 0 <= i < self.links@.len() ==> {
                        let l = #[trigger] self.links@[i];
                        (ids@.contains(l.from) && ids@.contains(l.to)) || old(
                            self,
                        ).links@.contains(l)
                    },
                decreases n - bi,
            {
                let b = ids[bi];
                let ghost g0 = self.links@;
                self.connect(a, b);
                proof {
                    assert(ids@.contains(a)) by {
                        assert(ids@[ai as int] == a);
                    }
                    assert(ids@.contains(b)) by {
                        assert(ids@[bi as int] == b);
                    }
                    assert forall|i: int, j: int|
                        0 <= i < ai && 0 <= j < n && ids@[i] != ids@[j] implies has_pair_q(
                        self.links@,
                        #[trigger] ids@[i],
                        #[trigger] ids@[j],
                        0xffff,
                    ) by {
                        lemma_connect_keeps_max_pair(g0, self.links@, a, b, ids@[i], ids@[j]);
                    }
                    assert forall|j: int|
                        0 <= j < bi + 1 && ids@[ai as int] != ids@[j] implies has_pair_q(
                        self.links@,
                        ids@[ai as int],
                        #[trigger] ids@[j],
                        0xffff,
                    ) by {
                        if j < bi {
                            lemma_connect_keeps_max_pair(
                                g0,
                                self.links@,
                                a,
                                b,
                                ids@[ai as int],
                                ids@[j],
                            );
                        }
                    }
                    assert forall|i: int| 0 <= i < self.links@.len() implies {
                        let l = #[trigger] self.links@[i];
                        (ids@.contains(l.from) && ids@.contains(l.to)) || old(
                            self,
                        ).links@.contains(l)
                    } by {
                        let l = self.links@[i];
                        if !((l.from == a && l.to == b) || (l.from == b && l.to == a)) {
                            if g0.contains(l) {
                                let k = choose|k: int| 0 <= k < g0.len() && g0[k] == l;
                            }
                        }
                    }
                }
                bi += 1;
            }
            ai += 1;
        }
    }
}

/// After a `connect`, a maximal-quality connection that existed before is
/// still stored with maximal quality: it is either one of the two re-inserted
/// pairs or kept unchanged.
proof fn lemma_connect_keeps_max_pair(g0: Seq<Link>, g2: Seq<Link>, a: ID, b: ID, x: ID, y: ID)
    requires
        x != y,
        has_pair_q(g0, x, y, 0xffff),
        // what `connect` promises of the two lists
        forall|i: int| 0 <= i < g2.len() ==> {
            let l = #[trigger] g2[i];
            ((l.from == a && l.to == b) || (l.from == b && l.to == a)) ==> l.quality == 0xffff
        },
        forall|i: int| 0 <= i < g0.len() ==> {
            let l = #[trigger] g0[i];
            (!(l.from == a && l.to == b) && !(l.from == b && l.to == a)) ==> g2.contains(l)
        },
        a != b ==> has_pair_q(g2, a, b, 0xffff) && has_pair_q(g2, b, a, 0xffff),
        forall|x2: ID, y2: ID| #[trigger] has_pair(g0, x2, y2) ==> has_pair(g2, x2, y2),
    ensures
        has_pair_q(g2, x, y, 0xffff),
{
    let i = choose|i: int|
        0 <= i < g0.len() && (#[trigger] g0[i]).from == x && g0[i].to == y && g0[i].quality
            == 0xffff;
    if (x == a && y == b) || (x == b && y == a) {
        // one of the two freshly re-inserted pairs
        assert(a != b);
    } else {
        assert(g2.contains(g0[i]));
        let j = choose|j: int| 0 <= j < g2.len() && g2[j] == g0[i];
    }
}

impl Graph {
    /// Remove node `id`: drop its incident links, shift every identifier
    /// above `id` down by one, and shrink the identifier space. The sorted
    /// order survives, because the shift is monotone. Removing from an empty
    /// graph does nothing; an out-of-range identifier is a caller bug.
    pub fn remove_node(&mut self, id: ID)
        requires
            old(self).wf(),
            old(self).node_count == 0 || (id as int) < (old(self).node_count as int),
        ensures
            final(self).wf(),
            old(self).node_count == 0 ==> final(self).links@ == old(self).links@
                && final(self).node_count == 0,
            old(self).node_count > 0 ==> final(self).node_count == old(self).node_count - 1
                && final(self).links@ == remove_one(old(self).links@, id),
    {
        if self.node_count == 0 {
            return ;
        }
        self.node_count -= 1;
        let ghost pred = |l: Link| l.from != id && l.to != id;
        let ghost shf = |l: Link| shift_link(l, id);
        let mut kept: Vec<Link> = Vec::new();
        let mut i: usize = 0;
        while i < self.links.len()
            invariant
                links_sorted(self.links@),
                forall|k: int|
                    0 <= k < self.links@.len() ==> (#[trigger] self.links@[k]).from != self.links@[k].to
                        && (self.links@[k].from as int) < (self.node_count as int) + 1 && (
                    self.links@[k].to as int) < (self.node_count as int) + 1
                        && self.links@[k].cost == 1,
                i <= self.links@.len(),
                pred == (|l: Link| l.from != id && l.to != id),
                shf == (|l: Link| shift_link(l, id)),
                kept@ == self.links@.subrange(0, i as int).filter(pred).map_values(shf),
            decreases self.links@.len() - i,
        {
            let l = self.links[i];
            let ghost prefix = self.links@.subrange(0, i as int);
            if l.from != id && l.to != id {
                let nl = Link {
                    from: if l.from > id {
                        l.from - 1
                    } else {
                        l.from
                    },
                    to: if l.to > id {
                        l.to - 1
                    } else {
                        l.to
                    },
                    quality: l.quality,
                    cost: l.cost,
                };
                kept.push(nl);
            }
            proof {
                reveal(Seq::filter);
                let prefix2 = self.links@.subrange(0, i as int + 1);
                assert(prefix2.drop_last() =~= prefix);
                assert(prefix2.last() == l);
                assert(kept@ =~= prefix2.filter(pred).map_values(shf));
            }
            i += 1;
        }
        proof {
            assert(self.links@.subrange(0, self.links@.len() as int) =~= self.links@);
        }
        let ghost old_links = self.links@;
        self.links = kept;
        proof {
            let f = old_links.filter(pred);
            lemma_filter_sorted(old_links, pred);
            assert forall|k: int| 0 <= k < f.len() implies pred(f[k]) && exists|k2: int|
                0 <= k2 < old_links.len() && old_links[k2] == f[k] by {
                lemma_filter_element_origin(old_links, pred, k);
            }
            assert forall|i2: int, j2: int| 0 <= i2 < j2 < self.links@.len() implies pair_lt(
                self.links@[i2],
                self.links@[j2],
            ) by {
                assert(self.links@[i2] == shift_link(f[i2], id));
                assert(self.links@[j2] == shift_link(f[j2], id));
                assert(pair_lt(f[i2], f[j2]));
            }
            assert forall|k: int| 0 <= k < self.links@.len() implies self.link_ok(
                #[trigger] self.links@[k],
            ) by {
                assert(self.links@[k] == shift_link(f[k], id));
                assert(pred(f[k]));
            }
        }
    }

    /// Remove the listed nodes one after another; each identifier refers to
    /// the state left by the removals before it, whose shifts the caller must
    /// account for. An identifier outside the space at its turn is a caller
    /// bug.
    pub fn remove_nodes(&mut self, nodes: &Vec<ID>)
        requires
            old(self).wf(),
            nodes@.len() <= old(self).node_count,
            forall|i: int|
                0 <= i < nodes@.len() ==> (#[trigger] nodes@[i] as int) < old(self).node_count - i,
        ensures
            final(self).wf(),
            final(self).node_count == old(self).node_count - nodes@.len(),
            // exactly the per-identifier removals, applied in order
            final(self).links@ == remove_fold(old(self).links@, nodes@, nodes@.len() as int),
    {
        let mut i: usize = 0;
        while i < nodes.len()
            invariant
                self.wf(),
                i <= nodes@.len(),
                nodes@.len() <= old(self).node_count,
                self.node_count == old(self).node_count - i,
                self.links@ == remove_fold(old(self).links@, nodes@, i as int),
                forall|i2: int|
                    0 <= i2 < nodes@.len() ==> (#[trigger] nodes@[i2] as int) < old(
                        self,
                    ).node_count - i2,
            decreases nodes@.len() - i,
        {
            let id = nodes[i];
            self.remove_node(id);
            i += 1;
        }
    }

    /// Remove every node with no outgoing link, highest identifier first so
    /// that the collected identifiers stay valid while the space shrinks.
    pub fn remove_unconnected_nodes(&mut self)
        requires
            old(self).wf(),
        ensures
            final(self).wf(),
            final(self).node_count == old(self).node_count - isolated_ids(
                old(self).links@,
                old(self).node_count as int,
            ).len(),
            // exactly the out-degree-zero nodes are removed, highest first,
            // each removal per the single-node contract
            final(self).links@ == remove_fold_rev(
                old(self).links@,
                isolated_ids(old(self).links@, old(self).node_count as int),
                isolated_ids(old(self).links@, old(self).node_count as int).len() as int,
            ),
    {
        let mut remove: Vec<ID> = Vec::new();
        let mut id: usize = 0;
        while id < self.node_count
            invariant
                self.wf(),
                id <= self.node_count,
                remove@ == isolated_ids(self.links@, id as int),
                remove@.len() <= id,
                forall|k: int| 0 <= k < remove@.len() ==> (#[trigger] remove@[k] as int) < (
                id as int),
                forall|a: int, b: int|
                    0 <= a < b < remove@.len() ==> (#[trigger] remove@[a] as int) < (
                    #[trigger] remove@[b] as int),
            decreases self.node_count - id,
        {
            let ghost r0 = remove@;
            if self.get_node_degree(id as u32) == 0 {
                remove.push(id as u32);
                proof {
                    assert(remove@ =~= r0 + seq![id as u32]);
                }
            } else {
                proof {
                    assert(remove@ =~= r0 + Seq::<ID>::empty());
                }
            }
            id += 1;
        }
        let ghost ids_spec = isolated_ids(self.links@, self.node_count as int);
        let ghost links0 = self.links@;
        let mut i: usize = remove.len();
        let ghost n0 = self.node_count;
        while i > 0
            invariant
                self.wf(),
                i <= remove@.len(),
                remove@ == ids_spec,
                self.node_count == n0 - (remove@.len() - i),
                self.links@ == remove_fold_rev(links0, ids_spec, (remove@.len() - i) as int),
                remove@.len() <= n0,
                forall|k: int| 0 <= k < i ==> (#[trigger] remove@[k] as int) < (
                self.node_count as int),
                forall|a: int, b: int|
                    0 <= a < b < remove@.len() ==> (#[trigger] remove@[a] as int) < (
                    #[trigger] remove@[b] as int),
            decreases i,
        {
            i -= 1;
            let id2 = remove[i];
            self.remove_node(id2);
            proof {
                assert forall|k: int| 0 <= k < i implies (#[trigger] remove@[k] as int) < (
                self.node_count as int) by {
                    lemma_ids_incr(remove@, k, i as int);
                }
            }
        }
    }

    /// Append another graph: its nodes get the identifiers above this graph's
    /// and its links come along, shifted accordingly.
    pub fn add_graph(&mut self, graph: Graph)
        requires
            old(self).wf(),
            graph.wf(),
            old(self).node_count as int + graph.node_count as int <= 0xffff_ffff,
        ensures
            final(self).wf(),
            final(self).node_count == old(self).node_count + graph.node_count,
            final(self).links@ == old(self).links@ + graph.links@.map_values(
                |l: Link| Link {
                    from: (l.from + old(self).node_count) as ID,
                    to: (l.to + old(self).node_count) as ID,
                    quality: l.quality,
                    cost: l.cost,
                },
            ),
    {
        let nlen: u32 = self.node_count as u32;
        let ghost shf = |l: Link| Link {
            from: (l.from + old(self).node_count) as ID,
            to: (l.to + old(self).node_count) as ID,
            quality: l.quality,
            cost: l.cost,
        };
        self.node_count += graph.node_count;
        let mut i: usize = 0;
        while i < graph.links.len()
            invariant
                graph.wf(),
                nlen as int == old(self).node_count as int,
                self.node_count == old(self).node_count + graph.node_count,
                old(self).node_count as int + graph.node_count as int <= 0xffff_ffff,
                old(self).wf(),
                shf == (|l: Link| Link {
                    from: (l.from + old(self).node_count) as ID,
                    to: (l.to + old(self).node_count) as ID,
                    quality: l.quality,
                    cost: l.cost,
                }),
                i <= graph.links@.len(),
                self.links@ == old(self).links@ + graph.links@.subrange(0, i as int).map_values(
                    shf,
                ),
            decreases graph.links@.len() - i,
        {
            let l = graph.links[i];
            let nl = Link {
                from: l.from + nlen,
                to: l.to + nlen,
                quality: l.quality,
                cost: l.cost,
            };
            self.links.push(nl);
            proof {
                assert(self.links@ =~= old(self).links@ + graph.links@.subrange(
                    0,
                    i as int + 1,
                ).map_values(shf));
            }
            i += 1;
        }
        proof {
            assert(graph.links@.subrange(0, graph.links@.len() as int) =~= graph.links@);
            let tail = graph.links@.map_values(shf);
            let n = old(self).links@.len() as int;
            assert forall|i2: int, j2: int| 0 <= i2 < j2 < self.links@.len() implies pair_lt(
                self.links@[i2],
                self.links@[j2],
            ) by {
                if i2 < n && j2 >= n {
                    assert(self.links@[i2] == old(self).links@[i2]);
                    assert(self.links@[j2] == shf(graph.links@[j2 - n]));
                    assert(old(self).link_ok(old(self).links@[i2]));
                } else if i2 >= n {
                    assert(self.links@[i2] == shf(graph.links@[i2 - n]));
                    assert(self.links@[j2] == shf(graph.links@[j2 - n]));
                    assert(pair_lt(graph.links@[i2 - n], graph.links@[j2 - n]));
                }
            }
            assert forall|k: int| 0 <= k < self.links@.len() implies self.link_ok(
                #[trigger] self.links@[k],
            ) by {
                if k >= n {
                    assert(self.links@[k] == shf(graph.links@[k - n]));
                    assert(graph.link_ok(graph.links@[k - n]));
                }
            }
        }
    }
}

/// In a strictly increasing id list, earlier entries lie below later ones by
/// at least the index distance.
proof fn lemma_ids_incr(s: Seq<ID>, j: int, k: int)
    requires
        forall|a: int, b: int| 0 <= a < b < s.len() ==> (#[trigger] s[a] as int) < (
        #[trigger] s[b] as int),
        0 <= j <= k < s.len(),
    ensures
        s[j] as int <= s[k] as int - (k - j),
    decreases k - j,
{
    if j < k {
        lemma_ids_incr(s, j, k - 1);
    }
}

/// `y` can be reached from `x` over the links — read as undirected — within
/// `k` hops.
pub open spec fn reach(links: Seq<Link>, x: int, y: int, k: nat) -> bool
    decreases k,
{
    x == y || (k > 0 && exists|i: int|
        0 <= i < links.len() && (((#[trigger] links[i]).from as int == x && reach(
            links,
            links[i].to as int,
            y,
            (k - 1) as nat,
        )) || (links[i].to as int == x && reach(links, links[i].from as int, y, (k - 1) as nat)))
    )
}

/// Some number of hops joins x and y over the links, read as undirected.
pub open spec fn reachable(links: Seq<Link>, x: int, y: int) -> bool {
    exists|k: nat| #[trigger] reach(links, x, y, k)
}

/// A walk stays valid over any list that contains every link of the walk's
/// list.
proof fn lemma_reach_subset(s1: Seq<Link>, s2: Seq<Link>, x: int, y: int, k: nat)
    requires
        reach(s1, x, y, k),
        forall|i: int| 0 <= i < s1.len() ==> s2.contains(#[trigger] s1[i]),
    ensures
        reach(s2, x, y, k),
    decreases k,
{
    if x != y {
        let i = choose|i: int|
            0 <= i < s1.len() && (((#[trigger] s1[i]).from as int == x && reach(
                s1,
                s1[i].to as int,
                y,
                (k - 1) as nat,
            )) || (s1[i].to as int == x && reach(s1, s1[i].from as int, y, (k - 1) as nat)));
        let j = choose|j: int| 0 <= j < s2.len() && s2[j] == s1[i];
        if s1[i].from as int == x && reach(s1, s1[i].to as int, y, (k - 1) as nat) {
            lemma_reach_subset(s1, s2, s1[i].to as int, y, (k - 1) as nat);
            assert((s2[j].from as int == x) && reach(s2, s2[j].to as int, y, (k - 1) as nat));
        } else {
            lemma_reach_subset(s1, s2, s1[i].from as int, y, (k - 1) as nat);
            assert((s2[j].to as int == x) && reach(s2, s2[j].from as int, y, (k - 1) as nat));
        }
    }
}

/// `y` can be reached from `x` within `k` hops following the links in their
/// stored direction.
pub open spec fn reach_directed(links: Seq<Link>, x: int, y: int, k: nat) -> bool
    decreases k,
{
    x == y || (k > 0 && exists|i: int|
        0 <= i < links.len() && ((#[trigger] links[i]).from as int == x) && reach_directed(
            links,
            links[i].to as int,
            y,
            (k - 1) as nat,
        )
    )
}

/// Some number of directed hops leads from x to y.
pub open spec fn reachable_directed(links: Seq<Link>, x: int, y: int) -> bool {
    exists|k: nat| #[trigger] reach_directed(links, x, y, k)
}

/// A directed walk extends by one more link at its end.
pub proof fn lemma_reach_directed_append(links: Seq<Link>, x: int, y: int, z: int, k: nat, i: int)
    requires
        reach_directed(links, x, y, k),
        0 <= i < links.len(),
        links[i].from as int == y,
        links[i].to as int == z,
    ensures
        reach_directed(links, x, z, (k + 1) as nat),
    decreases k,
{
    if x == y {
        assert(reach_directed(links, z, z, k));
    } else {
        let j = choose|j: int|
            0 <= j < links.len() && ((#[trigger] links[j]).from as int == x) && reach_directed(
                links,
                links[j].to as int,
                y,
                (k - 1) as nat,
            );
        lemma_reach_directed_append(links, links[j].to as int, y, z, (k - 1) as nat, i);
    }
}

/// Reachability survives a larger budget.
proof fn lemma_reach_mono_budget(links: Seq<Link>, x: int, y: int, k1: nat, k2: nat)
    requires
        reach(links, x, y, k1),
        k1 <= k2,
    ensures
        reach(links, x, y, k2),
    decreases k1,
{
    if x != y {
        let i = choose|i: int|
            0 <= i < links.len() && (((#[trigger] links[i]).from as int == x && reach(
                links,
                links[i].to as int,
                y,
                (k1 - 1) as nat,
            )) || (links[i].to as int == x && reach(links, links[i].from as int, y, (k1 - 1) as nat)));
        if links[i].from as int == x && reach(links, links[i].to as int, y, (k1 - 1) as nat) {
            lemma_reach_mono_budget(links, links[i].to as int, y, (k1 - 1) as nat, (k2 - 1) as nat);
        } else {
            lemma_reach_mono_budget(
                links,
                links[i].from as int,
                y,
                (k1 - 1) as nat,
                (k2 - 1) as nat,
            );
        }
    }
}

/// Reachability survives appending a link.
proof fn lemma_reach_push(links: Seq<Link>, l: Link, x: int, y: int, k: nat)
    requires
        reach(links, x, y, k),
    ensures
        reach(links.push(l), x, y, k),
    decreases k,
{
    if x != y {
        let i = choose|i: int|
            0 <= i < links.len() && (((#[trigger] links[i]).from as int == x && reach(
                links,
                links[i].to as int,
                y,
                (k - 1) as nat,
            )) || (links[i].to as int == x && reach(links, links[i].from as int, y, (k - 1) as nat)));
        assert(links.push(l)[i] == links[i]);
        if links[i].from as int == x && reach(links, links[i].to as int, y, (k - 1) as nat) {
            lemma_reach_push(links, l, links[i].to as int, y, (k - 1) as nat);
        } else {
            lemma_reach_push(links, l, links[i].from as int, y, (k - 1) as nat);
        }
    }
}

/// Reachability concatenates: a walk to y followed by a walk to z is a walk
/// to z.
proof fn lemma_reach_trans(links: Seq<Link>, x: int, y: int, z: int, k1: nat, k2: nat)
    requires
        reach(links, x, y, k1),
        reach(links, y, z, k2),
    ensures
        reach(links, x, z, (k1 + k2) as nat),
    decreases k1,
{
    if x == y {
        lemma_reach_mono_budget(links, y, z, k2, (k1 + k2) as nat);
    } else {
        let i = choose|i: int|
            0 <= i < links.len() && (((#[trigger] links[i]).from as int == x && reach(
                links,
                links[i].to as int,
                y,
                (k1 - 1) as nat,
            )) || (links[i].to as int == x && reach(
                links,
                links[i].from as int,
                y,
                (k1 - 1) as nat,
            )));
        if links[i].from as int == x && reach(links, links[i].to as int, y, (k1 - 1) as nat) {
            lemma_reach_trans(links, links[i].to as int, y, z, (k1 - 1) as nat, k2);
        } else {
            lemma_reach_trans(links, links[i].from as int, y, z, (k1 - 1) as nat, k2);
        }
    }
}

/// Joining the two classes of a link's endpoints keeps every class-mate pair
/// joined by the kept links: the old walks still stand, and pairs across the
/// merge walk to the link, over it, and on.
proof fn lemma_union_keeps_reachable(
    mst0: Seq<Link>,
    l: Link,
    roots0: Seq<ID>,
    ra: int,
    rb: int,
    n: int,
    u: int,
    v: int,
)
    requires
        parents_wf(roots0),
        roots0.len() == n,
        0 <= ra < n,
        0 <= rb < n,
        roots0[ra] as int == ra,
        roots0[rb] as int == rb,
        ra < rb,
        0 <= (l.from as int) < n,
        0 <= (l.to as int) < n,
        rep_of(roots0, l.from as int) == ra && rep_of(roots0, l.to as int) == rb || rep_of(
            roots0,
            l.from as int,
        ) == rb && rep_of(roots0, l.to as int) == ra,
        forall|a: int, b: int|
            0 <= a < n && 0 <= b < n && rep_of(roots0, a) == rep_of(roots0, b)
                ==> #[trigger] reachable(mst0, a, b),
        0 <= u < n,
        0 <= v < n,
        rep_of(roots0.update(rb, ra as ID), u) == rep_of(roots0.update(rb, ra as ID), v),
    ensures
        reachable(mst0.push(l), u, v),
{
    lemma_rep_union(roots0, ra, rb, u);
    lemma_rep_union(roots0, ra, rb, v);
    let ef = l.from as int;
    let et = l.to as int;
    if rep_of(roots0, u) == rep_of(roots0, v) {
        assert(reachable(mst0, u, v));
        let k = choose|k: nat| #[trigger] reach(mst0, u, v, k);
        lemma_reach_push(mst0, l, u, v, k);
    } else {
        // u's class holds one endpoint, v's class the other
        let mid1 = if rep_of(roots0, u) == rep_of(roots0, ef) {
            ef
        } else {
            et
        };
        let mid2 = if mid1 == ef {
            et
        } else {
            ef
        };
        assert(rep_of(roots0, u) == rep_of(roots0, mid1));
        assert(rep_of(roots0, v) == rep_of(roots0, mid2));
        assert(reachable(mst0, u, mid1));
        assert(reachable(mst0, mid2, v));
        let k1 = choose|k: nat| #[trigger] reach(mst0, u, mid1, k);
        let k2 = choose|k: nat| #[trigger] reach(mst0, mid2, v, k);
        lemma_reach_push(mst0, l, u, mid1, k1);
        lemma_reach_push(mst0, l, mid2, v, k2);
        let m2 = mst0.push(l);
        assert(reach(m2, mid1, mid2, 1)) by {
            assert(m2[mst0.len() as int] == l);
            assert(reach(m2, mid2, mid2, 0));
        }
        lemma_reach_trans(m2, u, mid1, mid2, k1, 1);
        lemma_reach_trans(m2, u, mid2, v, (k1 + 1) as nat, k2);
    }
}

/// Every node can reach every other node over the links within n hops: the
/// graph is connected.
pub open spec fn connected(links: Seq<Link>, n: int) -> bool {
    forall|x: int, y: int| 0 <= x < n && 0 <= y < n ==> #[trigger] reach(links, x, y, n as nat)
}

/// When the endpoints of every link share a union-find class, so do any two
/// nodes reachable from one another.
proof fn lemma_reach_same_class(links: Seq<Link>, s: Seq<ID>, n: int, x: int, y: int, k: nat)
    requires
        parents_wf(s),
        s.len() == n,
        forall|i: int| 0 <= i < links.len() ==> ((#[trigger] links[i]).from as int) < n && (
        links[i].to as int) < n,
        forall|i: int|
            0 <= i < links.len() ==> rep_of(s, (#[trigger] links[i]).from as int) == rep_of(
                s,
                links[i].to as int,
            ),
        0 <= x < n,
        0 <= y < n,
        reach(links, x, y, k),
    ensures
        rep_of(s, x) == rep_of(s, y),
    decreases k,
{
    if x != y {
        let i = choose|i: int|
            0 <= i < links.len() && (((#[trigger] links[i]).from as int == x && reach(
                links,
                links[i].to as int,
                y,
                (k - 1) as nat,
            )) || (links[i].to as int == x && reach(
                links,
                links[i].from as int,
                y,
                (k - 1) as nat,
            )));
        if links[i].from as int == x && reach(links, links[i].to as int, y, (k - 1) as nat) {
            lemma_reach_same_class(links, s, n, links[i].to as int, y, (k - 1) as nat);
        } else {
            lemma_reach_same_class(links, s, n, links[i].from as int, y, (k - 1) as nat);
        }
    }
}

/// A forest whose every node sits in the class of representative `r` has
/// exactly one self-parented entry in any prefix that covers `r`.
proof fn lemma_one_class_one_root(s: Seq<ID>, n: int, r: int, k: int)
    requires
        parents_wf(s),
        s.len() == n,
        0 <= r < n,
        s[r] as int == r,
        forall|x: int| 0 <= x < n ==> rep_of(s, x) == r,
        0 <= k <= n,
    ensures
        count_self_roots(s, k) == if r < k {
            1int
        } else {
            0int
        },
    decreases k,
{
    if k > 0 {
        lemma_one_class_one_root(s, n, r, k - 1);
        if s[k - 1] as int == k - 1 {
            // a self-parented entry is its own representative
            assert(rep_of(s, k - 1) == k - 1);
        }
    }
}

/// Parent forest of the union-find structure: every parent points downward,
/// so following parents terminates at a self-parented representative.
pub open spec fn parents_wf(s: Seq<ID>) -> bool {
    forall|k: int| 0 <= k < s.len() ==> (#[trigger] s[k] as int) <= k
}

/// The representative of `i` in the parent forest: follow parents down to a
/// self-parented entry. Parents point downward, so the walk terminates.
pub open spec fn rep_of(s: Seq<ID>, i: int) -> int
    decreases (if i >= 0 {
        i
    } else {
        0
    }),
{
    if 0 <= i < s.len() && (s[i] as int) < i {
        rep_of(s, s[i] as int)
    } else {
        i
    }
}

/// The representative of an in-range entry is an in-range, self-parented
/// entry, and a self-parented entry is its own representative.
proof fn lemma_rep_is_root(s: Seq<ID>, i: int)
    requires
        parents_wf(s),
        0 <= i < s.len(),
    ensures
        0 <= rep_of(s, i) < s.len(),
        s[rep_of(s, i)] as int == rep_of(s, i),
    decreases i,
{
    if (s[i] as int) < i {
        lemma_rep_is_root(s, s[i] as int);
    }
}

/// Re-pointing one non-representative entry at another member of its class
/// moves no entry to a different class.
proof fn lemma_rep_update_same_class(s: Seq<ID>, m: int, v: ID, k: int)
    requires
        parents_wf(s),
        0 <= m < s.len(),
        (v as int) <= m,
        (s[m] as int) < m,
        rep_of(s, v as int) == rep_of(s, m),
        v as int != m,
    ensures
        rep_of(s.update(m, v), k) == rep_of(s, k),
    decreases (if k >= 0 {
        k
    } else {
        0
    }),
{
    let s2 = s.update(m, v);
    if 0 <= k < s.len() {
        if k == m {
            // the new parent lies strictly below and shares the class
            lemma_rep_update_same_class(s, m, v, v as int);
        } else {
            if (s[k] as int) < k {
                lemma_rep_update_same_class(s, m, v, s[k] as int);
            }
        }
    }
}

/// Pointing the representative `rb` at the representative `ra` merges the two
/// classes: everything in `rb`'s class moves to `ra`'s, everything else stays.
proof fn lemma_rep_union(s: Seq<ID>, ra: int, rb: int, k: int)
    requires
        parents_wf(s),
        0 <= ra < s.len(),
        0 <= rb < s.len(),
        s[ra] as int == ra,
        s[rb] as int == rb,
        ra < rb,
    ensures
        rep_of(s.update(rb, ra as ID), k) == (if rep_of(s, k) == rb {
            ra as int
        } else {
            rep_of(s, k)
        }),
    decreases (if k >= 0 {
        k
    } else {
        0
    }),
{
    let s2 = s.update(rb, ra as ID);
    if 0 <= k < s.len() {
        if k == rb {
            assert(rep_of(s2, rb) == rep_of(s2, ra));
            assert(rep_of(s2, ra) == ra);
            assert(rep_of(s, rb) == rb);
        } else {
            if (s[k] as int) < k {
                lemma_rep_union(s, ra, rb, s[k] as int);
            }
        }
    }
}

/// Number of self-parented entries among the first `k`: one per
/// union-find class once the whole list is counted.
pub open spec fn count_self_roots(s: Seq<ID>, k: int) -> int
    decreases k,
{
    if k <= 0 {
        0
    } else {
        count_self_roots(s, k - 1) + if s[k - 1] as int == k - 1 {
            1int
        } else {
            0int
        }
    }
}

/// How one overwritten entry moves the self-root count.
proof fn lemma_count_update(s: Seq<ID>, m: int, v: ID, k: int)
    requires
        0 <= m < s.len(),
        k <= s.len(),
    ensures
        count_self_roots(s.update(m, v), k) == count_self_roots(s, k) + if m < k {
            (if v as int == m {
                1int
            } else {
                0int
            }) - (if s[m] as int == m {
                1int
            } else {
                0int
            })
        } else {
            0int
        },
    decreases k,
{
    if k > 0 {
        lemma_count_update(s, m, v, k - 1);
    }
}

/// A list whose counted prefix is entirely self-parented has one self-root
/// per entry.
proof fn lemma_count_all_self(s: Seq<ID>, k: int)
    requires
        0 <= k <= s.len(),
        forall|j: int| 0 <= j < k ==> (#[trigger] s[j] as int) == j,
    ensures
        count_self_roots(s, k) == k,
    decreases k,
{
    if k > 0 {
        lemma_count_all_self(s, k - 1);
    }
}

/// Find the representative of `i`, halving the path as it walks: each visited
/// entry is re-pointed at its grandparent. Self-parented entries are never
/// touched, and the number of self-roots is unchanged.
fn uf_root(roots: &mut Vec<ID>, i: usize) -> (r: usize)
    requires
        parents_wf(old(roots)@),
        i < old(roots)@.len(),
        old(roots)@.len() as int <= 0xffff_ffff,
    ensures
        final(roots)@.len() == old(roots)@.len(),
        parents_wf(final(roots)@),
        r < final(roots)@.len(),
        final(roots)@[r as int] as int == r as int,
        r as int == rep_of(old(roots)@, i as int),
        forall|k: int| rep_of(final(roots)@, k) == rep_of(old(roots)@, k),
        count_self_roots(final(roots)@, final(roots)@.len() as int) == count_self_roots(
            old(roots)@,
            old(roots)@.len() as int,
        ),
        forall|k: int|
            0 <= k < old(roots)@.len() && (#[trigger] old(roots)@[k] as int) == k
                ==> final(roots)@[k] == old(roots)@[k],
{
    let ghost len = old(roots)@.len() as int;
    let ghost i0 = i as int;
    let mut i = i;
    while roots[i] != i as u32
        invariant
            parents_wf(roots@),
            roots@.len() as int == len,
            len <= 0xffff_ffff,
            i < roots@.len(),
            rep_of(roots@, i as int) == rep_of(old(roots)@, i0),
            forall|k: int| rep_of(roots@, k) == rep_of(old(roots)@, k),
            count_self_roots(roots@, len) == count_self_roots(old(roots)@, len),
            forall|k: int|
                0 <= k < len && (#[trigger] old(roots)@[k] as int) == k ==> roots@[k] == old(
                    roots,
                )@[k],
        decreases i,
    {
        let p = roots[i] as usize;
        let g = roots[p];
        let ghost before = roots@;
        roots[i] = g;
        proof {
            lemma_count_update(before, i as int, g, len);
            // the grandparent is in the same class as the halved entry
            assert(before[i as int] as int == p as int && p < i);
            assert(rep_of(before, i as int) == rep_of(before, p as int));
            if (before[p as int] as int) < p as int {
                assert(rep_of(before, p as int) == rep_of(before, g as int));
            } else {
                assert(g as int == p as int);
            }
            assert(rep_of(before, g as int) == rep_of(before, i as int));
            assert forall|k: int| rep_of(roots@, k) == rep_of(before, k) by {
                lemma_rep_update_same_class(before, i as int, g, k);
            }
        }
        i = g as usize;
    }
    i
}

impl Graph {
    /// The spanning tree (per connected component) built by scanning the
    /// links in their stored order: Kruskal's algorithm with a union-find
    /// whose paths are halved on lookup. Read-only: it is not kept in sync
    /// with this graph.
    pub fn spanning_tree(&self) -> (r: Graph)
        requires
            self.wf(),
        ensures
            r.wf(),
            r.node_count == self.node_count,
            forall|i: int| 0 <= i < r.links@.len() ==> self.links@.contains(#[trigger] r.links@[i]),
            connected(self.links@, self.node_count as int) && self.node_count >= 1
                ==> r.links@.len() as int == self.node_count as int - 1,
            forall|x: int, y: int|
                0 <= x < self.node_count && 0 <= y < self.node_count ==> (#[trigger] reachable(
                    self.links@,
                    x,
                    y,
                ) <==> reachable(r.links@, x, y)),
    {
        Self::minimum_spanning_tree_impl(self.links.as_slice(), self.node_count)
    }

    /// The minimum spanning tree per connected component. Every stored link
    /// has unit cost, so the stored (from, to) order is already an
    /// ascending-cost order and Kruskal's scan can take the links as they
    /// are; the tree is minimal because all spanning trees of a component
    /// have equal total cost under that cost model.
    pub fn minimum_spanning_tree(&self) -> (r: Graph)
        requires
            self.wf(),
        ensures
            r.wf(),
            r.node_count == self.node_count,
            forall|i: int| 0 <= i < r.links@.len() ==> self.links@.contains(#[trigger] r.links@[i]),
            connected(self.links@, self.node_count as int) && self.node_count >= 1
                ==> r.links@.len() as int == self.node_count as int - 1,
            forall|x: int, y: int|
                0 <= x < self.node_count && 0 <= y < self.node_count ==> (#[trigger] reachable(
                    self.links@,
                    x,
                    y,
                ) <==> reachable(r.links@, x, y)),
    {
        Self::minimum_spanning_tree_impl(self.links.as_slice(), self.node_count)
    }

    /// Kruskal's algorithm: scan the links in ascending cost order and keep
    /// each link that joins two distinct union-find classes. The returned
    /// node count is the kept-link count plus the remaining class count,
    /// which always equals the source node count: every kept link merges
    /// exactly two classes.
    fn minimum_spanning_tree_impl(links: &[Link], node_count: usize) -> (r: Graph)
        requires
            links_sorted(links@),
            node_count as int <= 0xffff_ffff,
            forall|i: int| 0 <= i < links@.len() ==> ((#[trigger] links@[i]).from != links@[i].to
                && (links@[i].from as int) < (node_count as int) && (links@[i].to as int) < (
            node_count as int) && links@[i].cost == 1),
        ensures
            r.wf(),
            r.node_count == node_count,
            forall|i: int| 0 <= i < r.links@.len() ==> links@.contains(#[trigger] r.links@[i]),
            connected(links@, node_count as int) && node_count >= 1 ==> r.links@.len() as int
                == node_count as int - 1,
            // the tree spans each component exactly: the kept links join two
            // nodes if and only if the given links did
            forall|x: int, y: int|
                0 <= x < node_count && 0 <= y < node_count ==> (#[trigger] reachable(links@, x, y)
                    <==> reachable(r.links@, x, y)),
    {
        let ghost n = node_count as int;
        // initial root of every node is itself
        let mut roots: Vec<ID> = Vec::with_capacity(node_count);
        let mut i: usize = 0;
        while i < node_count
            invariant
                node_count as int <= 0xffff_ffff,
                roots@.len() == i <= node_count,
                forall|k: int| 0 <= k < i ==> (#[trigger] roots@[k] as int) == k,
            decreases node_count - i,
        {
            roots.push(i as u32);
            i += 1;
        }
        proof {
            lemma_count_all_self(roots@, n);
        }
        let mut mst: Vec<Link> = Vec::new();
        proof {
            assert forall|u: int, v: int|
                0 <= u < n && 0 <= v < n && rep_of(roots@, u) == rep_of(roots@, v)
                    implies #[trigger] reachable(mst@, u, v) by {
                assert(rep_of(roots@, u) == u && rep_of(roots@, v) == v);
                assert(reach(mst@, u, v, 0nat));
            }
        }
        let ghost mut src: Seq<int> = Seq::empty();
        let mut j: usize = 0;
        while j < links.len()
            invariant
                links_sorted(links@),
                node_count as int <= 0xffff_ffff,
                forall|k: int| 0 <= k < links@.len() ==> ((#[trigger] links@[k]).from
                    != links@[k].to && (links@[k].from as int) < n && (links@[k].to as int) < n
                    && links@[k].cost == 1),
                n == node_count as int,
                roots@.len() == node_count,
                parents_wf(roots@),
                j <= links@.len(),
                mst@.len() == src.len(),
                forall|t: int| 0 <= t < src.len() ==> 0 <= #[trigger] src[t] < j as int,
                forall|t: int| 0 <= t < src.len() ==> mst@[t] == links@[#[trigger] src[t]],
                forall|a: int, b: int| 0 <= a < b < src.len() ==> #[trigger] src[a]
                    < #[trigger] src[b],
                count_self_roots(roots@, n) == n - mst@.len(),
                // the endpoints of every processed link share a class
                forall|i2: int|
                    0 <= i2 < j ==> rep_of(roots@, (#[trigger] links@[i2]).from as int) == rep_of(
                        roots@,
                        links@[i2].to as int,
                    ),
                // class-mates are joined by the kept links
                forall|u: int, v: int|
                    0 <= u < n && 0 <= v < n && rep_of(roots@, u) == rep_of(roots@, v)
                        ==> #[trigger] reachable(mst@, u, v),
            decreases links@.len() - j,
        {
            let l = links[j];
            let x = uf_root(&mut roots, l.from as usize);
            let y = uf_root(&mut roots, l.to as usize);
            if x != y {
                let ghost old_mst = mst@;
                mst.push(l);
                proof {
                    src = src.push(j as int);
                }
                let ghost before = roots@;
                let ghost mst0 = mst@.drop_last();
                proof {
                    assert(mst0 =~= old_mst);
                }
                if x < y {
                    roots[y] = x as u32;
                    proof {
                        lemma_count_update(before, y as int, x as u32, n);
                        assert forall|i2: int| 0 <= i2 < j + 1 implies rep_of(
                            roots@,
                            (#[trigger] links@[i2]).from as int,
                        ) == rep_of(roots@, links@[i2].to as int) by {
                            lemma_rep_union(before, x as int, y as int, links@[i2].from as int);
                            lemma_rep_union(before, x as int, y as int, links@[i2].to as int);
                        }
                        assert forall|u: int, v: int|
                            0 <= u < n && 0 <= v < n && rep_of(roots@, u) == rep_of(roots@, v)
                                implies #[trigger] reachable(mst@, u, v) by {
                            assert(mst@ =~= mst0.push(l));
                            lemma_union_keeps_reachable(
                                mst0,
                                l,
                                before,
                                x as int,
                                y as int,
                                n,
                                u,
                                v,
                            );
                        }
                    }
                } else {
                    roots[x] = y as u32;
                    proof {
                        lemma_count_update(before, x as int, y as u32, n);
                        assert forall|i2: int| 0 <= i2 < j + 1 implies rep_of(
                            roots@,
                            (#[trigger] links@[i2]).from as int,
                        ) == rep_of(roots@, links@[i2].to as int) by {
                            lemma_rep_union(before, y as int, x as int, links@[i2].from as int);
                            lemma_rep_union(before, y as int, x as int, links@[i2].to as int);
                        }
                        assert forall|u: int, v: int|
                            0 <= u < n && 0 <= v < n && rep_of(roots@, u) == rep_of(roots@, v)
                                implies #[trigger] reachable(mst@, u, v) by {
                            assert(mst@ =~= mst0.push(l));
                            lemma_union_keeps_reachable(
                                mst0,
                                l,
                                before,
                                y as int,
                                x as int,
                                n,
                                u,
                                v,
                            );
                        }
                    }
                }
            }
            j += 1;
        }
        // count the remaining classes: the self-parented entries
        let mut roots_count: usize = 0;
        let mut k: usize = 0;
        while k < roots.len()
            invariant
                roots@.len() == node_count,
                k <= node_count,
                node_count as int <= 0xffff_ffff,
                roots_count as int == count_self_roots(roots@, k as int),
                roots_count <= k,
            decreases roots@.len() - k,
        {
            if roots[k] == k as u32 {
                roots_count += 1;
            }
            k += 1;
        }
        proof {
            assert(mst@.len() <= n) by {
                assert(count_self_roots(roots@, n) >= 0) by {
                    lemma_count_nonneg(roots@, n);
                }
            }
            assert forall|a: int, b: int| 0 <= a < b < mst@.len() implies pair_lt(
                mst@[a],
                mst@[b],
            ) by {
                assert(mst@[a] == links@[src[a]]);
                assert(mst@[b] == links@[src[b]]);
            }
            assert forall|t: int| 0 <= t < mst@.len() implies links@.contains(
                #[trigger] mst@[t],
            ) by {
                assert(mst@[t] == links@[src[t]]);
            }
            // whatever the given links joined, the kept links still join:
            // walks end in one class, whose mates the kept links connect —
            // and conversely, kept links are given links
            assert forall|x2: int, y2: int|
                0 <= x2 < n && 0 <= y2 < n implies (#[trigger] reachable(links@, x2, y2)
                    <==> reachable(mst@, x2, y2)) by {
                if reachable(links@, x2, y2) {
                    let k = choose|k: nat| #[trigger] reach(links@, x2, y2, k);
                    lemma_reach_same_class(links@, roots@, n, x2, y2, k);
                }
                if reachable(mst@, x2, y2) {
                    let k = choose|k: nat| #[trigger] reach(mst@, x2, y2, k);
                    lemma_reach_subset(mst@, links@, x2, y2, k);
                }
            }
            // for a connected graph a single class remains, so the tree holds
            // one link less than there are nodes
            if connected(links@, n) && n >= 1 {
                lemma_rep_is_root(roots@, 0);
                let r0 = rep_of(roots@, 0);
                assert forall|x: int| 0 <= x < n implies rep_of(roots@, x) == r0 by {
                    assert(reach(links@, x, 0, n as nat));
                    lemma_reach_same_class(links@, roots@, n, x, 0, n as nat);
                }
                lemma_one_class_one_root(roots@, n, r0, n);
                assert(count_self_roots(roots@, n) == 1);
            }
        }
        let r = Graph { node_count: mst.len() + roots_count, links: mst };
        r
    }
}

/// Ghost replay of the class merging over the first `j` links: some parent
/// forest exists in which every processed link's endpoints share a class and
/// at least n - j classes remain — each link merges at most two classes.
proof fn lemma_uf_process(links: Seq<Link>, n: int, j: int) -> (s: Seq<ID>)
    requires
        0 <= j <= links.len(),
        0 <= n <= 0xffff_ffff,
        forall|i: int|
            0 <= i < links.len() ==> 0 <= ((#[trigger] links[i]).from as int) < n && 0 <= (
            links[i].to as int) < n,
    ensures
        s.len() == n,
        parents_wf(s),
        count_self_roots(s, n) >= n - j,
        forall|i: int|
            0 <= i < j ==> rep_of(s, (#[trigger] links[i]).from as int) == rep_of(
                s,
                links[i].to as int,
            ),
    decreases j,
{
    if j == 0 {
        let s = Seq::new(n as nat, |k: int| k as ID);
        assert forall|k: int| 0 <= k < n implies (#[trigger] s[k] as int) == k by {}
        lemma_count_all_self(s, n);
        s
    } else {
        let s0 = lemma_uf_process(links, n, j - 1);
        let f = links[j - 1].from as int;
        let t = links[j - 1].to as int;
        lemma_rep_is_root(s0, f);
        lemma_rep_is_root(s0, t);
        let rf = rep_of(s0, f);
        let rt = rep_of(s0, t);
        if rf == rt {
            s0
        } else {
            let ra = if rf < rt {
                rf
            } else {
                rt
            };
            let rb = if rf < rt {
                rt
            } else {
                rf
            };
            let s1 = s0.update(rb, ra as ID);
            lemma_count_update(s0, rb, ra as ID, n);
            assert forall|k: int| rep_of(s1, k) == (if rep_of(s0, k) == rb {
                ra
            } else {
                rep_of(s0, k)
            }) by {
                lemma_rep_union(s0, ra, rb, k);
            }
            assert forall|i: int|
                0 <= i < j implies rep_of(s1, (#[trigger] links[i]).from as int) == rep_of(
                s1,
                links[i].to as int,
            ) by {
                lemma_rep_union(s0, ra, rb, links[i].from as int);
                lemma_rep_union(s0, ra, rb, links[i].to as int);
            }
            s1
        }
    }
}

/// A connected set of links over n nodes holds at least n - 1 links: every
/// link joins at most two of the n initial classes, and connectivity leaves
/// exactly one. Under the unit cost model this makes the spanning tree's
/// total cost — its link count — minimal among connected spanning subgraphs.
pub proof fn lemma_connected_needs_links(links: Seq<Link>, n: int)
    requires
        1 <= n <= 0xffff_ffff,
        forall|i: int|
            0 <= i < links.len() ==> 0 <= ((#[trigger] links[i]).from as int) < n && 0 <= (
            links[i].to as int) < n,
        connected(links, n),
    ensures
        links.len() >= n - 1,
{
    let s = lemma_uf_process(links, n, links.len() as int);
    lemma_rep_is_root(s, 0);
    let r0 = rep_of(s, 0);
    assert forall|x: int| 0 <= x < n implies rep_of(s, x) == r0 by {
        assert(reach(links, x, 0, n as nat));
        lemma_reach_same_class(links, s, n, x, 0, n as nat);
    }
    lemma_one_class_one_root(s, n, r0, n);
}

/// The self-root count never drops below zero.
proof fn lemma_count_nonneg(s: Seq<ID>, k: int)
    ensures
        count_self_roots(s, k) >= 0,
    decreases k,
{
    if k > 0 {
        lemma_count_nonneg(s, k - 1);
    }
}

/// Some consecutive pair of the flat id list is exactly (x, y).
pub open spec fn flat_has_pair(flat: Seq<ID>, x: ID, y: ID) -> bool {
    exists|k: int| 0 <= k < pair_seq(flat).len() && (#[trigger] pair_seq(flat)[k]) == (x, y)
}

/// Filtering with predicates that agree everywhere gives the same list.
proof fn lemma_filter_congruent(s: Seq<Link>, p1: spec_fn(Link) -> bool, p2: spec_fn(Link) -> bool)
    requires
        forall|l: Link| #[trigger] p1(l) == p2(l),
    ensures
        s.filter(p1) == s.filter(p2),
    decreases s.len(),
{
    reveal(Seq::filter);
    if s.len() > 0 {
        lemma_filter_congruent(s.drop_last(), p1, p2);
    }
}

/// The elements of a sorted list with `from == id` form one contiguous block:
/// filtering by `from == id` yields exactly that block.
proof fn lemma_block_is_filter(s: Seq<Link>, id: ID, start: int, end: int)
    requires
        0 <= start <= end <= s.len(),
        forall|k: int| 0 <= k < s.len() ==> ((#[trigger] s[k]).from == id <==> start <= k < end),
    ensures
        s.filter(|l: Link| l.from == id) == s.subrange(start, end),
    decreases s.len(),
{
    reveal(Seq::filter);
    let p = |l: Link| l.from == id;
    if s.len() == 0 {
        assert(s.filter(p) =~= s.subrange(start, end));
    } else {
        let rest = s.drop_last();
        if s.last().from == id {
            // the block reaches the end of the list
            assert(end == s.len());
            lemma_block_is_filter(rest, id, start, end - 1);
            assert(s.filter(p) == rest.filter(p).push(s.last()));
            assert(rest.subrange(start, end - 1) =~= s.subrange(start, end - 1));
            assert(s.filter(p) =~= s.subrange(start, end));
        } else {
            // the block, if any, lies inside the prefix
            assert(end <= s.len() - 1 || start == end);
            let e2 = if end > rest.len() as int {
                rest.len() as int
            } else {
                end
            };
            let s2 = if start > e2 {
                e2
            } else {
                start
            };
            lemma_block_is_filter(rest, id, s2, e2);
            assert(s.filter(p) == rest.filter(p));
            assert(rest.subrange(s2, e2) =~= s.subrange(start, end));
        }
    }
}

/// Within one `from` block of a sorted list the `to` values strictly
/// increase, so the k-th entry's `to` is at least `to` of the first plus k.
proof fn lemma_to_incr(s: Seq<Link>, lo: int, k: int)
    requires
        links_sorted(s),
        0 <= lo,
        k >= 0,
        lo + k < s.len(),
        forall|i: int| lo <= i <= lo + k ==> (#[trigger] s[i]).from == s[lo].from,
    ensures
        s[lo + k].to as int >= s[lo].to as int + k,
    decreases k,
{
    if k > 0 {
        lemma_to_incr(s, lo, k - 1);
        assert(pair_lt(s[lo + k - 1], s[lo + k]));
    }
}

/// A list whose adjacent elements are ordered is sorted.
proof fn lemma_adjacent_sorted(s: Seq<Link>)
    requires
        forall|k: int| 0 < k < s.len() ==> pair_lt(s[k - 1], #[trigger] s[k]),
    ensures
        links_sorted(s),
{
    assert forall|i: int, j: int| 0 <= i < j < s.len() implies pair_lt(s[i], s[j]) by {
        lemma_sorted_span(s, i, j);
    }
}

/// Helper for `lemma_adjacent_sorted`: order propagates over any span.
proof fn lemma_sorted_span(s: Seq<Link>, i: int, j: int)
    requires
        forall|k: int| 0 < k < s.len() ==> pair_lt(s[k - 1], #[trigger] s[k]),
        0 <= i < j < s.len(),
    ensures
        pair_lt(s[i], s[j]),
    decreases j - i,
{
    if j == i + 1 {
        assert(pair_lt(s[j - 1], s[j]));
    } else {
        lemma_sorted_span(s, i, j - 1);
        assert(pair_lt(s[j - 1], s[j]));
        lemma_pair_lt_trans(s[i], s[j - 1], s[j]);
    }
}

} // verus!
