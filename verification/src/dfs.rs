//! Depth-first classification: one walk from the entry that yields the
//! post-order of the nodes and, for every node, the back edges that end at it.

use crate::bitset::{bit_len, bits, bitset_contains, bitset_put, bitset_with_capacity};
use crate::graph::{
    edge_source,
    edge_target,
    graph_nodes,
    is_edge,
    is_node,
    lemma_edge_is_arc,
    store_node_bound,
    store_out_edges,
    store_wf,
    topology_of,
    CfgGraph,
};
use crate::topology::{lemma_closed_set_holds_reachable, lemma_reachable_refl, lemma_reachable_step};
use fixedbitset::FixedBitSet;
use std::collections::HashMap;
use vstd::prelude::*;
use vstd::std_specs::hash::group_hash_axioms;

verus! {

broadcast use group_hash_axioms;

/// `x` stands at an earlier position of `s` than `y`.
pub open spec fn before(s: Seq<usize>, x: usize, y: usize) -> bool {
    exists|i: int, j: int| 0 <= i < j < s.len() && s[i] == x && s[j] == y
}

/// `x` and `y` both stand in `s`, and `x` at no later position than `y`.
pub open spec fn not_after(s: Seq<usize>, x: usize, y: usize) -> bool {
    exists|i: int, j: int| 0 <= i <= j < s.len() && s[i] == x && s[j] == y
}

/// Edge `e` is listed under target `t`.
pub open spec fn recorded(m: Map<usize, Vec<usize>>, t: usize, e: usize) -> bool {
    m.contains_key(t) && m[t]@.contains(e)
}

/// What the walk has gathered so far.
pub struct DfsState {
    pub discovered: FixedBitSet,
    pub finished: FixedBitSet,
    pub backedges: HashMap<usize, Vec<usize>>,
    pub podfs_trace: Vec<usize>,
    /// For each discovered node, how many nodes had finished when it was
    /// discovered.
    pub opened: Ghost<Map<int, int>>,
}

/// `n` stands in `s` at position `start` or later.
pub open spec fn at_or_after(s: Seq<usize>, start: int, n: usize) -> bool {
    exists|j: int| start <= j < s.len() && 0 <= j && s[j] == n
}

/// `x` and `t` both stand in `s`, `x` at no later position than `t` and at no
/// earlier position than `start`.
pub open spec fn within_block(s: Seq<usize>, start: int, x: usize, t: usize) -> bool {
    exists|i: int, j: int| start <= i <= j < s.len() && 0 <= i && s[i] == x && s[j] == t
}

impl DfsState {
    #[verifier::inline]
    pub open spec fn disc(&self) -> Set<int> {
        bits(self.discovered)
    }

    #[verifier::inline]
    pub open spec fn fin(&self) -> Set<int> {
        bits(self.finished)
    }

    #[verifier::inline]
    pub open spec fn trace(&self) -> Seq<usize> {
        self.podfs_trace@
    }

    #[verifier::inline]
    pub open spec fn rec(&self, t: usize, e: usize) -> bool {
        recorded(self.backedges@, t, e)
    }

    /// Finished nodes are discovered, discovered nodes are live, and both
    /// sets have room for every live node.
    pub open spec fn sets_ok(&self, g: CfgGraph) -> bool {
        &&& bit_len(self.discovered) == bit_len(self.finished)
        &&& forall|n: int| #[trigger] is_node(g, n) ==> n < bit_len(self.discovered)
        &&& forall|n: int| #[trigger] self.fin().contains(n) ==> self.disc().contains(n)
        &&& forall|n: int| #[trigger] self.disc().contains(n) ==> is_node(g, n)
    }

    /// The trace lists the finished nodes, each once.
    pub open spec fn trace_ok(&self) -> bool {
        &&& self.trace().no_duplicates()
        &&& forall|i: int|
            0 <= i < self.trace().len() ==> self.fin().contains(#[trigger] self.trace()[i] as int)
        &&& forall|n: int| #[trigger]
            self.fin().contains(n) ==> 0 <= n && self.trace().contains(n as usize)
    }

    /// Every discovered node can be reached from the entry.
    pub open spec fn reach_ok(&self, g: CfgGraph, entry: int) -> bool {
        forall|n: int| #[trigger] self.disc().contains(n) ==> topology_of(g).reachable(entry, n)
    }

    /// A listed edge is live, ends at the node it is listed under, joins two
    /// discovered nodes, closes a cycle (its target reaches its source), and
    /// its source finishes no later than its target.
    pub open spec fn rec_ok(&self, g: CfgGraph) -> bool {
        forall|t: usize, e: usize| #[trigger]
            self.rec(t, e) ==> {
                &&& is_edge(g, e as int)
                &&& edge_target(g, e as int) == t
                &&& self.disc().contains(edge_source(g, e as int))
                &&& self.disc().contains(t as int)
                &&& topology_of(g).reachable(t as int, edge_source(g, e as int))
                &&& self.fin().contains(t as int) ==> not_after(
                    self.trace(),
                    edge_source(g, e as int) as usize,
                    t,
                )
            }
    }

    /// No list is empty and no list holds an edge twice.
    pub open spec fn lists_ok(&self) -> bool {
        forall|t: usize| #[trigger]
            self.backedges@.contains_key(t) ==> self.backedges@[t]@.len() > 0
                && self.backedges@[t]@.no_duplicates()
    }

    /// Every edge out of a finished node ends at a node that finished
    /// earlier, or is listed.
    pub open spec fn closed_ok(&self, g: CfgGraph) -> bool {
        forall|e: int| #[trigger]
            is_edge(g, e) && self.fin().contains(edge_source(g, e)) ==> before(
                self.trace(),
                edge_target(g, e) as usize,
                edge_source(g, e) as usize,
            ) || self.rec(edge_target(g, e) as usize, e as usize)
    }

    /// What finished while a node was open is its block: the block of a
    /// finished node ends with the node and holds only what the node reaches,
    /// and the source of an edge listed under a finished node lies in the
    /// block of that node.
    pub open spec fn blocks_ok(&self, g: CfgGraph) -> bool {
        &&& forall|n: int| #[trigger]
            self.disc().contains(n) ==> self.opened@.dom().contains(n) && 0 <= self.opened@[n]
                <= self.trace().len()
        &&& forall|j: int|
            0 <= j < self.trace().len() ==> self.opened@[(#[trigger] self.trace()[j]) as int] <= j
        &&& forall|j: int, k: int|
            0 <= j < self.trace().len() && self.opened@[self.trace()[j] as int] <= k <= j
                ==> topology_of(g).reachable(
                (#[trigger] self.trace()[j]) as int,
                (#[trigger] self.trace()[k]) as int,
            )
        &&& forall|t: usize, e: usize| #[trigger]
            self.rec(t, e) && self.fin().contains(t as int) ==> within_block(
                self.trace(),
                self.opened@[t as int],
                edge_source(g, e as int) as usize,
                t,
            )
    }

    /// Every finished node but the entry was entered by an edge from a node
    /// that is still open or finished later.
    pub open spec fn parent_ok(&self, g: CfgGraph, entry: int) -> bool {
        forall|n: int| #[trigger]
            self.fin().contains(n) && n != entry ==> exists|e: int| #[trigger]
                is_edge(g, e) && self.enters(g, e, n)
    }

    /// Edge `e` ends at the finished node `n` and starts at a discovered
    /// node that was discovered before `n` finished and that, if it has
    /// finished, finished later.
    pub open spec fn enters(&self, g: CfgGraph, e: int, n: int) -> bool {
        &&& edge_target(g, e) == n
        &&& self.disc().contains(edge_source(g, e))
        &&& at_or_after(self.trace(), self.opened@[edge_source(g, e)], n as usize)
        &&& self.fin().contains(edge_source(g, e)) ==> before(
            self.trace(),
            n as usize,
            edge_source(g, e) as usize,
        )
    }

    /// Node `u` is the entry, or some edge leads to it from a node that is
    /// discovered and not finished.
    pub open spec fn has_open_parent(&self, g: CfgGraph, entry: int, u: int) -> bool {
        u == entry || exists|e: int| #[trigger]
            is_edge(g, e) && edge_target(g, e) == u && self.disc().contains(edge_source(g, e))
                && !self.fin().contains(edge_source(g, e))
    }

    /// Every node that is discovered and not finished reaches `u`.
    pub open spec fn open_reach(&self, g: CfgGraph, u: int) -> bool {
        forall|n: int| #[trigger]
            self.disc().contains(n) && !self.fin().contains(n) ==> topology_of(g).reachable(n, u)
    }

    pub open spec fn inv(&self, g: CfgGraph, entry: int) -> bool {
        &&& self.blocks_ok(g)
        &&& self.parent_ok(g, entry)
        &&& self.sets_ok(g)
        &&& self.trace_ok()
        &&& self.reach_ok(g, entry)
        &&& self.rec_ok(g)
        &&& self.lists_ok()
        &&& self.closed_ok(g)
    }

    /// The live nodes that are not discovered yet.
    pub open spec fn undiscovered(&self, g: CfgGraph) -> Set<int> {
        graph_nodes(g).dom().difference(self.disc())
    }

    /// `later` has grown out of `self`: nothing is forgotten, whatever was
    /// discovered in between is finished, and whatever finished in between
    /// was discovered in between.
    pub open spec fn grown_to(&self, later: DfsState) -> bool {
        &&& forall|n: int| #[trigger] self.disc().contains(n) ==> later.disc().contains(n)
        &&& forall|n: int| #[trigger] self.fin().contains(n) ==> later.fin().contains(n)
        &&& forall|n: int| #[trigger]
            later.disc().contains(n) && !self.disc().contains(n) ==> later.fin().contains(n)
        &&& forall|n: int| #[trigger]
            later.fin().contains(n) && !self.fin().contains(n) ==> !self.disc().contains(n)
        &&& self.trace().len() <= later.trace().len()
        &&& later.trace().subrange(0, self.trace().len() as int) =~= self.trace()
        &&& forall|t: usize, e: usize| #[trigger] self.rec(t, e) ==> later.rec(t, e)
    }

    /// `later` continues `self`: it has grown out of it, and the edges listed
    /// in between start at nodes discovered in between.
    pub open spec fn continued_by(&self, later: DfsState, g: CfgGraph) -> bool {
        &&& self.grown_to(later)
        &&& forall|t: usize, e: usize| #[trigger]
            later.rec(t, e) && !self.rec(t, e) ==> !self.disc().contains(edge_source(g, e as int))
    }
}

/// An order that holds in a sequence holds in every sequence that continues it.
pub proof fn lemma_before_extends(s: Seq<usize>, t: Seq<usize>, x: usize, y: usize)
    requires
        s.len() <= t.len(),
        t.subrange(0, s.len() as int) == s,
    ensures
        before(s, x, y) ==> before(t, x, y),
        not_after(s, x, y) ==> not_after(t, x, y),
{
    if before(s, x, y) {
        let (i, j) = choose|i: int, j: int| 0 <= i < j < s.len() && s[i] == x && s[j] == y;
        assert(t.subrange(0, s.len() as int)[i] == t[i]);
        assert(t.subrange(0, s.len() as int)[j] == t[j]);
    }
    if not_after(s, x, y) {
        let (i, j) = choose|i: int, j: int| 0 <= i <= j < s.len() && s[i] == x && s[j] == y;
        assert(t.subrange(0, s.len() as int)[i] == t[i]);
        assert(t.subrange(0, s.len() as int)[j] == t[j]);
    }
}

/// What a depth-first walk of `g` from `entry` must deliver: `po` lists the
/// nodes that `entry` reaches, each once and `entry` last; every node of `po`
/// but the entry is entered by an edge from a node that comes later in `po`;
/// an edge out of a node of `po` is listed in `be`, under its target, exactly
/// when its target does not come earlier in `po` than its source; a listed
/// edge closes a cycle, that is, its target reaches its source; and `be`
/// holds nothing else, no edge twice and no empty list.
pub open spec fn is_dfs_result(
    g: CfgGraph,
    entry: int,
    be: Map<usize, Vec<usize>>,
    po: Seq<usize>,
) -> bool {
    &&& po.no_duplicates()
    &&& po.len() > 0 && po.last() == entry
    &&& forall|i: int| 0 <= i < po.len() ==> topology_of(g).reachable(entry, #[trigger] po[i] as int)
    &&& forall|n: int| #[trigger]
        topology_of(g).reachable(entry, n) ==> 0 <= n && po.contains(n as usize)
    &&& forall|i: int|
        0 <= i < po.len() && po[i] as int != entry ==> exists|e: int| #[trigger]
            is_edge(g, e) && edge_target(g, e) == (#[trigger] po[i]) as int && before(
                po,
                po[i],
                edge_source(g, e) as usize,
            )
    &&& forall|t: usize, e: usize| #[trigger]
        recorded(be, t, e) ==> is_edge(g, e as int) && edge_target(g, e as int) == t && po.contains(
            edge_source(g, e as int) as usize,
        ) && topology_of(g).reachable(t as int, edge_source(g, e as int))
    &&& forall|e: int| #[trigger]
        is_edge(g, e) && po.contains(edge_source(g, e) as usize) ==> (recorded(
            be,
            edge_target(g, e) as usize,
            e as usize,
        ) <==> !before(po, edge_target(g, e) as usize, edge_source(g, e) as usize))
    &&& forall|t: usize| #[trigger]
        be.contains_key(t) ==> be[t]@.len() > 0 && be[t]@.no_duplicates()
    &&& exists|opened: Map<int, int>| #[trigger] dfs_blocks(g, entry, be, po, opened)
}

/// The blocks of a depth-first walk. `opened` gives for each node of `po` the
/// position at which its block starts: the block ends with the node, holds
/// only what the node reaches, and holds the source of every edge that is
/// listed under the node. So a listed edge was met while its target was still
/// open. And every node but the entry lies in the block of a node from which
/// an edge leads to it.
pub open spec fn dfs_blocks(
    g: CfgGraph,
    entry: int,
    be: Map<usize, Vec<usize>>,
    po: Seq<usize>,
    opened: Map<int, int>,
) -> bool {
    &&& forall|j: int| 0 <= j < po.len() ==> 0 <= opened[(#[trigger] po[j]) as int] <= j
    &&& forall|j: int, k: int|
        0 <= j < po.len() && opened[po[j] as int] <= k <= j ==> topology_of(g).reachable(
            (#[trigger] po[j]) as int,
            (#[trigger] po[k]) as int,
        )
    &&& forall|t: usize, e: usize| #[trigger]
        recorded(be, t, e) ==> within_block(po, opened[t as int], edge_source(g, e as int) as usize, t)
    &&& forall|j: int|
        0 <= j < po.len() && po[j] as int != entry ==> exists|e: int| #[trigger]
            is_edge(g, e) && edge_target(g, e) == (#[trigger] po[j]) as int && before(
                po,
                po[j],
                edge_source(g, e) as usize,
            ) && opened[edge_source(g, e)] <= j
}

/// Where no edge closes a cycle, a depth-first walk lists no back edge.
pub proof fn lemma_no_cycle_no_back_edge(
    g: CfgGraph,
    entry: int,
    be: Map<usize, Vec<usize>>,
    po: Seq<usize>,
)
    requires
        is_dfs_result(g, entry, be, po),
        forall|e: int| #[trigger]
            is_edge(g, e) ==> !topology_of(g).reachable(edge_target(g, e), edge_source(g, e)),
    ensures
        forall|t: usize| !be.contains_key(t),
{
    assert forall|t: usize| !be.contains_key(t) by {
        if be.contains_key(t) {
            let e = be[t]@[0];
            assert(recorded(be, t, e));
            assert(is_edge(g, e as int));
        }
    }
}

/// In a sequence without repetitions, no two elements stand each before the
/// other.
pub proof fn lemma_order_is_strict(s: Seq<usize>, x: usize, y: usize)
    requires
        s.no_duplicates(),
        not_after(s, x, y),
    ensures
        !before(s, y, x),
{
    let (i, j) = choose|i: int, j: int| 0 <= i <= j < s.len() && s[i] == x && s[j] == y;
    if before(s, y, x) {
        let (a, b) = choose|a: int, b: int| 0 <= a < b < s.len() && s[a] == y && s[b] == x;
        assert(a == j && b == i);
    }
}

/// Walks everything that `u` reaches through undiscovered nodes, unless `u`
/// was discovered before.
#[verifier::loop_isolation(false)]
fn go_rec(g: &CfgGraph, entry: Ghost<int>, st: &mut DfsState, u: usize)
    requires
        store_wf(*g),
        old(st).inv(*g, entry@),
        is_node(*g, u as int),
        topology_of(*g).reachable(entry@, u as int),
        old(st).open_reach(*g, u as int),
        old(st).has_open_parent(*g, entry@, u as int),
    ensures
        final(st).inv(*g, entry@),
        old(st).continued_by(*final(st), *g),
        final(st).disc().contains(u as int),
        !old(st).disc().contains(u as int) ==> final(st).trace().len() > 0 && final(st).trace().last()
            == u,
        forall|n: int| #[trigger]
            old(st).disc().contains(n) ==> final(st).opened@[n] == old(st).opened@[n],
        forall|k: int|
            old(st).trace().len() <= k < final(st).trace().len() ==> topology_of(*g).reachable(
                u as int,
                (#[trigger] final(st).trace()[k]) as int,
            ),
    decreases old(st).undiscovered(*g).len(),
{
    let ghost s0 = *st;
    let was = bitset_put(&mut st.discovered, u);
    if was {
        assert(st.disc() =~= s0.disc());
        return ;
    }
    st.opened = Ghost(st.opened@.insert(u as int, st.podfs_trace@.len() as int));
    let ghost s1 = *st;
    proof {
        assert(s1.blocks_ok(*g)) by {
            assert forall|n: int| #[trigger] s1.disc().contains(n) implies s1.opened@.dom().contains(
                n,
            ) && 0 <= s1.opened@[n] <= s1.trace().len() by {
                if n != u as int {
                    assert(s0.disc().contains(n));
                }
            }
            assert forall|j: int| 0 <= j < s1.trace().len() implies s1.opened@[(
            #[trigger] s1.trace()[j]) as int] <= j by {
                assert(s0.fin().contains(s0.trace()[j] as int));
                assert(s0.trace()[j] != u);
            }
            assert forall|j: int, k: int|
                0 <= j < s1.trace().len() && s1.opened@[s1.trace()[j] as int] <= k
                    <= j implies topology_of(*g).reachable(
                (#[trigger] s1.trace()[j]) as int,
                (#[trigger] s1.trace()[k]) as int,
            ) by {
                assert(s0.fin().contains(s0.trace()[j] as int));
                assert(s0.trace()[j] != u);
            }
            assert forall|t: usize, e: usize| #[trigger]
                s1.rec(t, e) && s1.fin().contains(t as int) implies within_block(
                s1.trace(),
                s1.opened@[t as int],
                edge_source(*g, e as int) as usize,
                t,
            ) by {
                assert(s0.rec(t, e));
                assert(t != u);
            }
        }
        assert(forall|t: usize, e: usize| s1.rec(t, e) == s0.rec(t, e));
        assert(s1.parent_ok(*g, entry@)) by {
            assert forall|n: int| #[trigger] s1.fin().contains(n) && n != entry@ implies exists|
                e: int,
            | #[trigger] is_edge(*g, e) && s1.enters(*g, e, n) by {
                assert(s0.fin().contains(n));
                let e = choose|e: int| #[trigger] is_edge(*g, e) && s0.enters(*g, e, n);
                assert(s0.disc().contains(edge_source(*g, e)));
                assert(edge_source(*g, e) != u as int);
                assert(is_edge(*g, e) && s1.enters(*g, e, n));
            }
        }
        assert(s1.inv(*g, entry@));
        assert(s1.open_reach(*g, u as int)) by {
            lemma_reachable_refl(topology_of(*g), u as int);
        }
    }
    let out = store_out_edges(g, u);
    let mut i: usize = 0;
    while i < out.len()
        invariant
            i <= out.len(),
            st.inv(*g, entry@),
            st.disc().contains(u as int),
            !st.fin().contains(u as int),
            s1.grown_to(*st),
            st.open_reach(*g, u as int),
            forall|n: int| #[trigger] s1.disc().contains(n) ==> st.opened@[n] == s1.opened@[n],
            forall|k: int|
                s1.trace().len() <= k < st.trace().len() ==> topology_of(*g).reachable(
                    u as int,
                    (#[trigger] st.trace()[k]) as int,
                ),
            forall|t: usize, e: usize| #[trigger]
                st.rec(t, e) && !s1.rec(t, e) ==> !s1.disc().contains(edge_source(*g, e as int)) || (
                edge_source(*g, e as int) == u && exists|j: int|
                    0 <= j < i && (#[trigger] out@[j]).0 == e),
            forall|j: int|
                0 <= j < i ==> st.fin().contains((#[trigger] out@[j]).1 as int) || st.rec(
                    out@[j].1,
                    out@[j].0,
                ),
        decreases out.len() - i,
    {
        let e = out[i].0;
        let v = out[i].1;
        let ghost sa = *st;
        proof {
            assert(is_edge(*g, e as int));
            lemma_edge_is_arc(*g, e as int);
            assert(topology_of(*g).arcs.dom().contains(e as int));
            assert(is_node(*g, v as int));
        }
        if !bitset_contains(&st.discovered, v) {
            proof {
                lemma_reachable_step(topology_of(*g), entry@, u as int, v as int);
                let a = s0.undiscovered(*g);
                let b = st.undiscovered(*g);
                assert(a.contains(u as int));
                assert forall|n: int| b.contains(n) implies a.remove(u as int).contains(n) by {
                    if s0.disc().contains(n) {
                        assert(s1.disc().contains(n));
                    }
                }
                vstd::set_lib::lemma_len_subset(b, a.remove(u as int));
                assert(st.open_reach(*g, v as int)) by {
                    assert forall|n: int| #[trigger]
                        st.disc().contains(n) && !st.fin().contains(n) implies topology_of(
                        *g,
                    ).reachable(n, v as int) by {
                        lemma_reachable_step(topology_of(*g), n, u as int, v as int);
                    }
                }
                assert(st.has_open_parent(*g, entry@, v as int)) by {
                    assert(is_edge(*g, e as int) && edge_target(*g, e as int) == v as int
                        && st.disc().contains(edge_source(*g, e as int)) && !st.fin().contains(
                        edge_source(*g, e as int),
                    ));
                }
            }
            go_rec(g, entry, st, v);
            proof {
                assert forall|n: int| #[trigger] s1.disc().contains(n) implies st.opened@[n]
                    == s1.opened@[n] by {
                    assert(sa.disc().contains(n));
                }
                assert forall|k: int|
                    s1.trace().len() <= k < st.trace().len() implies topology_of(*g).reachable(
                    u as int,
                    (#[trigger] st.trace()[k]) as int,
                ) by {
                    if k < sa.trace().len() {
                        assert(st.trace().subrange(0, sa.trace().len() as int)[k] == st.trace()[k]);
                        assert(topology_of(*g).reachable(u as int, sa.trace()[k] as int));
                    } else {
                        let p = choose|p: Seq<int>| #[trigger]
                            topology_of(*g).path_between(p, v as int, st.trace()[k] as int);
                        crate::topology::lemma_reachable_from_successor(
                            topology_of(*g),
                            u as int,
                            v as int,
                            st.trace()[k] as int,
                        );
                    }
                }
                assert(st.open_reach(*g, u as int)) by {
                    assert forall|n: int| #[trigger]
                        st.disc().contains(n) && !st.fin().contains(n) implies topology_of(
                        *g,
                    ).reachable(n, u as int) by {
                        assert(sa.disc().contains(n));
                        assert(!sa.fin().contains(n));
                    }
                }
                assert forall|t: usize, x: usize| #[trigger]
                    st.rec(t, x) && !s1.rec(t, x) implies !s1.disc().contains(
                    edge_source(*g, x as int),
                ) || (edge_source(*g, x as int) == u && exists|j: int|
                    0 <= j < i + 1 && (#[trigger] out@[j]).0 == x) by {
                    if sa.rec(t, x) {
                    } else {
                        assert(!sa.disc().contains(edge_source(*g, x as int)));
                    }
                }
                assert forall|j: int| 0 <= j < i + 1 implies st.fin().contains(
                    (#[trigger] out@[j]).1 as int,
                ) || st.rec(out@[j].1, out@[j].0) by {
                    if j < i {
                        assert(sa.fin().contains(out@[j].1 as int) || sa.rec(out@[j].1, out@[j].0));
                    }
                }
            }
        } else if !bitset_contains(&st.finished, v) {
            let mut list = match st.backedges.remove(&v) {
                Some(l) => l,
                None => Vec::new(),
            };
            let ghost old_list = list@;
            list.push(e);
            st.backedges.insert(v, list);
            proof {
                {
                    assert forall|t: usize, x: usize| #[trigger]
                        st.rec(t, x) <==> (sa.rec(t, x) || (t == v && x == e)) by {
                        if t == v {
                            assert(st.backedges@[v]@ == old_list.push(e));
                            if old_list.push(e).contains(x) {
                                let k = choose|k: int|
                                    0 <= k < old_list.push(e).len() && old_list.push(e)[k] == x;
                                if k < old_list.len() {
                                    assert(old_list[k] == x);
                                }
                            }
                            if sa.rec(t, x) {
                                let k = choose|k: int| 0 <= k < old_list.len() && old_list[k] == x;
                                assert(old_list.push(e)[k] == x);
                            }
                            assert(old_list.push(e)[old_list.len() as int] == e);
                        }
                    }
                }
                assert(!sa.rec(v, e)) by {
                    if sa.rec(v, e) {
                        if s1.rec(v, e) {
                            assert(s0.rec(v, e));
                        } else {
                            let j = choose|j: int| 0 <= j < i && (#[trigger] out@[j]).0 == e;
                        }
                    }
                }
                assert(st.lists_ok()) by {
                    assert forall|t: usize| #[trigger] st.backedges@.contains_key(t) implies st.backedges@[t]@.len()
                        > 0 && st.backedges@[t]@.no_duplicates() by {
                        if t == v {
                            assert(st.backedges@[v]@ == old_list.push(e));
                            assert forall|a: int| 0 <= a < old_list.len() implies #[trigger] old_list[a]
                                != e by {
                                if old_list[a] == e {
                                    assert(sa.backedges@[v]@.contains(e));
                                    assert(sa.rec(v, e));
                                }
                            }
                        } else {
                            assert(sa.backedges@.contains_key(t));
                        }
                    }
                }
                assert(st.rec_ok(*g));
                assert(st.closed_ok(*g));
                assert(st.inv(*g, entry@));
            }
        } else {
        }
        i += 1;
    }
    let ghost s2 = *st;
    bitset_put(&mut st.finished, u);
    st.podfs_trace.push(u);
    proof {
        let tr = st.trace();
        assert(tr.subrange(0, s2.trace().len() as int) == s2.trace());
        assert(forall|t: usize, e: usize| st.rec(t, e) == s2.rec(t, e));
        assert(tr[tr.len() - 1] == u);
        assert forall|x: usize, y: usize| before(s2.trace(), x, y) implies before(tr, x, y) by {
            lemma_before_extends(s2.trace(), tr, x, y);
        }
        assert forall|x: usize, y: usize| not_after(s2.trace(), x, y) implies not_after(
            tr,
            x,
            y,
        ) by {
            lemma_before_extends(s2.trace(), tr, x, y);
        }
        assert(st.trace_ok()) by {
            assert forall|a: int, b: int| 0 <= a < tr.len() && 0 <= b < tr.len() && a != b implies tr[a]
                != tr[b] by {
                if a < s2.trace().len() {
                    assert(tr[a] == s2.trace()[a]);
                }
                if b < s2.trace().len() {
                    assert(tr[b] == s2.trace()[b]);
                }
            }
            assert forall|n: int| #[trigger] st.fin().contains(n) implies 0 <= n && tr.contains(
                n as usize,
            ) by {
                if n == u as int {
                    assert(tr[tr.len() - 1] == u);
                } else {
                    assert(s2.fin().contains(n));
                    let k = choose|k: int|
                        0 <= k < s2.trace().len() && s2.trace()[k] == n as usize;
                    assert(tr[k] == s2.trace()[k]);
                }
            }
            assert forall|k: int| 0 <= k < tr.len() implies st.fin().contains(
                #[trigger] tr[k] as int,
            ) by {
                if k < s2.trace().len() {
                    assert(tr[k] == s2.trace()[k]);
                }
            }
        }
        assert(st.blocks_ok(*g)) by {
            lemma_reachable_refl(topology_of(*g), u as int);
            assert(st.opened@ == s2.opened@);
            assert(s2.opened@[u as int] == s1.trace().len());
            assert forall|n: int| #[trigger] st.disc().contains(n) implies st.opened@.dom().contains(
                n,
            ) && 0 <= st.opened@[n] <= tr.len() by {
                assert(s2.disc().contains(n));
            }
            assert forall|j: int| 0 <= j < tr.len() implies st.opened@[(#[trigger] tr[j]) as int]
                <= j by {
                if j < s2.trace().len() {
                    assert(tr[j] == s2.trace()[j]);
                }
            }
            assert forall|j: int, k: int|
                0 <= j < tr.len() && st.opened@[tr[j] as int] <= k <= j implies topology_of(
                *g,
            ).reachable((#[trigger] tr[j]) as int, (#[trigger] tr[k]) as int) by {
                assert(st.fin().contains(tr[j] as int));
                assert(st.disc().contains(tr[j] as int));
                if j < s2.trace().len() {
                    assert(tr[j] == s2.trace()[j]);
                    assert(s2.fin().contains(s2.trace()[j] as int));
                    assert(s2.disc().contains(s2.trace()[j] as int));
                    assert(tr[k] == s2.trace()[k]);
                } else {
                    if k < s2.trace().len() {
                        assert(tr[k] == s2.trace()[k]);
                    }
                }
            }
            assert forall|t: usize, e: usize| #[trigger]
                st.rec(t, e) && st.fin().contains(t as int) implies within_block(
                tr,
                st.opened@[t as int],
                edge_source(*g, e as int) as usize,
                t,
            ) by {
                assert(s2.rec(t, e));
                let x = edge_source(*g, e as int);
                if t == u {
                    assert(!s0.disc().contains(u as int));
                    assert(!s0.rec(t, e));
                    assert(!s1.rec(t, e));
                    if x != u as int {
                        assert(s2.disc().contains(x) && !s1.disc().contains(x));
                        assert(s2.fin().contains(x));
                        let i = choose|i: int| 0 <= i < s2.trace().len() && s2.trace()[i] == x as usize;
                        assert(tr[i] == s2.trace()[i]);
                        if i < s1.trace().len() {
                            assert(s2.trace().subrange(0, s1.trace().len() as int)[i] == s2.trace()[i]);
                            assert(s1.fin().contains(s1.trace()[i] as int));
                        }
                        assert(s1.trace().len() <= i <= tr.len() - 1 && 0 <= i && tr[i] == x as usize
                            && tr[tr.len() - 1] == t);
                    } else {
                        let i = tr.len() - 1;
                        assert(s1.trace().len() <= i <= i && 0 <= i && tr[i] == x as usize && tr[i] == t);
                    }
                } else {
                    assert(s2.fin().contains(t as int));
                    let (i, j) = choose|i: int, j: int|
                        s2.opened@[t as int] <= i <= j < s2.trace().len() && 0 <= i && s2.trace()[i]
                            == x as usize && s2.trace()[j] == t;
                    assert(tr[i] == s2.trace()[i] && tr[j] == s2.trace()[j]);
                }
            }
        }
        assert(st.rec_ok(*g)) by {
            assert forall|t: usize, e: usize| #[trigger] st.rec(t, e) implies ({
                &&& is_edge(*g, e as int)
                &&& edge_target(*g, e as int) == t
                &&& st.disc().contains(edge_source(*g, e as int))
                &&& st.disc().contains(t as int)
                &&& st.fin().contains(t as int) ==> not_after(
                    tr,
                    edge_source(*g, e as int) as usize,
                    t,
                )
            }) by {
                assert(s2.rec(t, e));
                let x = edge_source(*g, e as int);
                if t == u {
                    assert(!s0.disc().contains(u as int));
                    assert(!s0.rec(t, e));
                    assert(!s1.rec(t, e));
                    if x != u as int {
                        assert(s2.disc().contains(x) && !s1.disc().contains(x));
                        assert(s2.fin().contains(x));
                    }
                    assert(st.fin().contains(x));
                    let k = choose|k: int| 0 <= k < tr.len() && tr[k] == x as usize;
                    assert(0 <= k <= tr.len() - 1 && tr[k] == x as usize && tr[tr.len() - 1] == t);
                } else if st.fin().contains(t as int) {
                    assert(s2.fin().contains(t as int));
                }
            }
        }
        assert(st.closed_ok(*g)) by {
            assert forall|e: int| #[trigger]
                is_edge(*g, e) && st.fin().contains(edge_source(*g, e)) implies before(
                tr,
                edge_target(*g, e) as usize,
                edge_source(*g, e) as usize,
            ) || st.rec(edge_target(*g, e) as usize, e as usize) by {
                if edge_source(*g, e) == u as int {
                    let j = choose|j: int| 0 <= j < out@.len() && (#[trigger] out@[j]).0 as int == e;
                    assert(out@[j].1 as int == edge_target(*g, e));
                    if s2.fin().contains(out@[j].1 as int) {
                        let k = choose|k: int|
                            0 <= k < s2.trace().len() && s2.trace()[k] == out@[j].1;
                        assert(tr[k] == s2.trace()[k]);
                        assert(0 <= k < tr.len() - 1 && tr[k] == out@[j].1 && tr[tr.len() - 1] == u);
                    }
                } else {
                    assert(s2.fin().contains(edge_source(*g, e)));
                }
            }
        }
        assert(st.parent_ok(*g, entry@)) by {
            assert(st.opened@ == s2.opened@);
            assert forall|n: int| #[trigger] st.fin().contains(n) && n != entry@ implies exists|
                e: int,
            | #[trigger] is_edge(*g, e) && st.enters(*g, e, n) by {
                if n == u as int {
                    let e = choose|e: int| #[trigger]
                        is_edge(*g, e) && edge_target(*g, e) == u as int && s0.disc().contains(
                            edge_source(*g, e),
                        ) && !s0.fin().contains(edge_source(*g, e));
                    let p = edge_source(*g, e);
                    assert(s1.disc().contains(p));
                    assert(!s1.fin().contains(p));
                    assert(!s2.fin().contains(p));
                    assert(s2.disc().contains(p));
                    assert(s2.opened@[p] <= s2.trace().len());
                    let last = tr.len() - 1;
                    assert(s2.opened@[p] <= last < tr.len() && 0 <= last && tr[last] == u);
                    assert(is_edge(*g, e) && st.enters(*g, e, n));
                } else {
                    assert(s2.fin().contains(n));
                    let e = choose|e: int| #[trigger] is_edge(*g, e) && s2.enters(*g, e, n);
                    let p = edge_source(*g, e);
                    let k = choose|k: int|
                        s2.opened@[p] <= k < s2.trace().len() && 0 <= k && s2.trace()[k]
                            == n as usize;
                    assert(tr[k] == s2.trace()[k]);
                    assert(s2.opened@[p] <= k < tr.len() && 0 <= k && tr[k] == n as usize);
                    if p == u as int {
                        assert(0 <= k < tr.len() - 1 && tr[k] == n as usize && tr[tr.len() - 1] == u);
                    }
                    assert(is_edge(*g, e) && st.enters(*g, e, n));
                }
            }
        }
        assert(st.inv(*g, entry@));
        assert forall|n: int| #[trigger] s0.disc().contains(n) implies st.opened@[n]
            == s0.opened@[n] by {
            assert(s1.disc().contains(n));
        }
        assert forall|k: int| s0.trace().len() <= k < tr.len() implies topology_of(*g).reachable(
            u as int,
            (#[trigger] tr[k]) as int,
        ) by {
            lemma_reachable_refl(topology_of(*g), u as int);
            if k < s2.trace().len() {
                assert(tr[k] == s2.trace()[k]);
            }
        }
        assert(s0.continued_by(*st, *g)) by {
            assert(s0.trace() == s1.trace());
            assert forall|n: int| #[trigger] s0.disc().contains(n) implies st.disc().contains(n) by {
                assert(s1.disc().contains(n));
            }
            assert(tr.subrange(0, s0.trace().len() as int) =~= s0.trace());
            assert forall|t: usize, e: usize| #[trigger]
                st.rec(t, e) && !s0.rec(t, e) implies !s0.disc().contains(
                edge_source(*g, e as int),
            ) by {
                assert(s2.rec(t, e) && !s1.rec(t, e));
            }
        }
    }
}

/// Walks the graph depth-first from `entry` and returns, first, the back
/// edges found, listed under the node they end at, and second, the nodes in
/// the order in which the walk finished them.
pub fn depth_first_classify(g: &CfgGraph, entry: usize) -> (r: (
    HashMap<usize, Vec<usize>>,
    Vec<usize>,
))
    requires
        store_wf(*g),
        is_node(*g, entry as int),
    ensures
        is_dfs_result(*g, entry as int, r.0@, r.1@),
{
    let bound = store_node_bound(g);
    let mut st = DfsState {
        discovered: bitset_with_capacity(bound),
        finished: bitset_with_capacity(bound),
        backedges: HashMap::new(),
        podfs_trace: Vec::new(),
        opened: Ghost(Map::empty()),
    };
    let ghost s0 = st;
    proof {
        lemma_reachable_refl(topology_of(*g), entry as int);
        assert(st.inv(*g, entry as int));
    }
    go_rec(g, Ghost(entry as int), &mut st, entry);
    proof {
        let t = topology_of(*g);
        let po = st.trace();
        assert forall|n: int| #[trigger] st.disc().contains(n) implies st.fin().contains(n) by {
            assert(!s0.disc().contains(n));
        }
        assert forall|a: int, b: int| st.fin().contains(a) && #[trigger] t.has_arc(a, b) implies st.fin().contains(
            b,
        ) by {
            let e = choose|e: int| #[trigger] t.arcs.dom().contains(e) && t.arcs[e] == (a, b);
            assert(is_edge(*g, e));
            if st.rec(b as usize, e as usize) {
                assert(st.disc().contains(b));
            } else {
                let (i, j) = choose|i: int, j: int|
                    0 <= i < j < po.len() && po[i] == b as usize && po[j] == a as usize;
                assert(st.fin().contains(po[i] as int));
            }
        }
        assert forall|n: int| #[trigger] t.reachable(entry as int, n) implies 0 <= n && po.contains(
            n as usize,
        ) by {
            lemma_closed_set_holds_reachable(t, st.fin(), entry as int);
            assert(st.fin().contains(n));
        }
        assert forall|x: usize, e: usize| #[trigger] recorded(st.backedges@, x, e) implies is_edge(
            *g,
            e as int,
        ) && edge_target(*g, e as int) == x && po.contains(edge_source(*g, e as int) as usize) by {
            assert(st.rec(x, e));
            assert(st.fin().contains(edge_source(*g, e as int)));
        }
        assert forall|e: int| #[trigger]
            is_edge(*g, e) && po.contains(edge_source(*g, e) as usize) implies (recorded(
            st.backedges@,
            edge_target(*g, e) as usize,
            e as usize,
        ) <==> !before(po, edge_target(*g, e) as usize, edge_source(*g, e) as usize)) by {
            let x = edge_source(*g, e);
            let y = edge_target(*g, e);
            assert(t.arcs.dom().contains(e));
            let k = choose|k: int| 0 <= k < po.len() && po[k] == x as usize;
            assert(st.fin().contains(po[k] as int));
            if st.rec(y as usize, e as usize) {
                assert(st.fin().contains(y));
                lemma_order_is_strict(po, x as usize, y as usize);
            }
        }
        assert forall|j: int| 0 <= j < po.len() && po[j] as int != entry as int implies exists|
            e: int,
        | #[trigger]
            is_edge(*g, e) && edge_target(*g, e) == (#[trigger] po[j]) as int && before(
                po,
                po[j],
                edge_source(*g, e) as usize,
            ) && st.opened@[edge_source(*g, e)] <= j by {
            assert(st.fin().contains(po[j] as int));
            let e = choose|e: int| #[trigger] is_edge(*g, e) && st.enters(*g, e, po[j] as int);
            let p = edge_source(*g, e);
            assert(st.disc().contains(p));
            assert(st.fin().contains(p));
            let k = choose|k: int| st.opened@[p] <= k < po.len() && 0 <= k && po[k] == po[j];
            assert(k == j);
            assert(is_edge(*g, e));
        }
        assert(dfs_blocks(*g, entry as int, st.backedges@, po, st.opened@)) by {
            assert forall|j: int| 0 <= j < po.len() implies 0 <= st.opened@[(
            #[trigger] po[j]) as int] <= j by {
                assert(st.fin().contains(po[j] as int));
                assert(st.disc().contains(po[j] as int));
            }
            assert forall|x: usize, e: usize| #[trigger]
                recorded(st.backedges@, x, e) implies within_block(
                po,
                st.opened@[x as int],
                edge_source(*g, e as int) as usize,
                x,
            ) by {
                assert(st.rec(x, e));
                assert(st.disc().contains(x as int));
                assert(st.fin().contains(x as int));
            }
        }
    }
    (st.backedges, st.podfs_trace)
}

} // verus!
