//! Region detection: which nodes a header dominates, where they lead, and
//! whether they form a region with a single exit.

use crate::bitset::{bit_len, bits, bitset_count_ones, bitset_difference, bitset_ones, bitset_put};
use crate::cfg::ControlFlowGraph;
use crate::graph::{
    dominator_lists,
    dominators_of,
    edge_source,
    edge_target,
    is_edge,
    is_node,
    lemma_edge_is_arc,
    store_dominators,
    store_node_indices,
    store_out_edges,
    topology_of,
};
use crate::topology::lemma_path_stays_in_nodes;
use fixedbitset::FixedBitSet;
use vstd::prelude::*;

verus! {

/// Whether `x` occurs in `v`.
pub fn vec_contains(v: &Vec<usize>, x: usize) -> (r: bool)
    ensures
        r == v@.contains(x),
{
    let mut i: usize = 0;
    while i < v.len()
        invariant
            i <= v.len(),
            forall|k: int| 0 <= k < i ==> v@[k] != x,
        decreases v.len() - i,
    {
        if v[i] == x {
            return true;
        }
        i += 1;
    }
    false
}

impl ControlFlowGraph {
    /// The nodes that `h` dominates: those that the entry reaches only
    /// through `h`.
    pub open spec fn region_of(&self, h: int) -> Set<int> {
        self.topology().dominated_by(self.entry as int, h)
    }

    /// The nodes outside the region of `h` to which an edge leads from inside.
    pub open spec fn region_exits(&self, h: int) -> Set<int> {
        self.topology().successors(self.region_of(h)).difference(self.region_of(h))
    }

    /// Returns the set of nodes that `h` dominates.
    pub fn dominates_set(&self, h: usize) -> (r: FixedBitSet)
        requires
            self.wf(),
        ensures
            bits(r) == self.region_of(h as int),
            self.topology().reachable(self.entry as int, h as int) ==> bits(r).contains(h as int),
            forall|n: int| #[trigger] is_node(self.graph, n) ==> 0 <= n < bit_len(r),
            bit_len(r) == 0 || is_node(self.graph, bit_len(r) - 1),
    {
        let mut ret = self.mk_node_set();
        let doms = store_dominators(&self.graph, self.entry);
        let nodes = store_node_indices(&self.graph);
        let ghost t = self.topology();
        let ghost root = self.entry as int;
        let mut i: usize = 0;
        while i < nodes.len()
            invariant
                i <= nodes.len(),
                self.wf(),
                t == self.topology(),
                root == self.entry as int,
                forall|n: int| #[trigger] is_node(self.graph, n) ==> 0 <= n < bit_len(ret),
                bit_len(ret) == 0 || is_node(self.graph, bit_len(ret) - 1),
                forall|k: int| 0 <= k < nodes@.len() ==> is_node(self.graph, #[trigger] nodes@[k] as int),
                forall|n: int| #[trigger]
                    dominator_lists(doms).dom().contains(n) <==> t.reachable(root, n),
                forall|n: int, x: int|
                    dominator_lists(doms).dom().contains(n) ==> (#[trigger] dominator_lists(
                        doms,
                    )[n].contains(x) <==> t.dominates(root, x, n)),
                forall|x: int|
                    bits(ret).contains(x) <==> (self.region_of(h as int).contains(x) && exists|k: int|
                        0 <= k < i && #[trigger] nodes@[k] as int == x),
            decreases nodes.len() - i,
        {
            let n = nodes[i];
            let ghost before = bits(ret);
            let listed = dominators_of(&doms, n);
            let mut member = false;
            if let Some(ds) = listed {
                member = vec_contains(&ds, h);
                proof {
                    let m = ds@.map_values(|x: usize| x as int);
                    if ds@.contains(h) {
                        let k = choose|k: int| 0 <= k < ds@.len() && ds@[k] == h;
                        assert(m[k] == h as int);
                    }
                    if m.contains(h as int) {
                        let k = choose|k: int| 0 <= k < m.len() && m[k] == h as int;
                        assert(ds@[k] == h);
                    }
                    assert(member == t.dominates(root, h as int, n as int));
                }
            }
            assert(member == self.region_of(h as int).contains(n as int));
            if member {
                bitset_put(&mut ret, n);
            }
            proof {
                assert forall|x: int|
                    bits(ret).contains(x) <==> (self.region_of(h as int).contains(x) && exists|k: int|
                        0 <= k < i + 1 && #[trigger] nodes@[k] as int == x) by {
                    if before.contains(x) {
                        let k = choose|k: int| 0 <= k < i && #[trigger] nodes@[k] as int == x;
                        assert(0 <= k < i + 1 && nodes@[k] as int == x);
                    }
                    if self.region_of(h as int).contains(x) && exists|k: int|
                        0 <= k < i + 1 && #[trigger] nodes@[k] as int == x {
                        let k = choose|k: int| 0 <= k < i + 1 && #[trigger] nodes@[k] as int == x;
                        if k < i {
                            assert(before.contains(x));
                        }
                    }
                }
            }
            i += 1;
        }
        proof {
            assert forall|x: int| self.region_of(h as int).contains(x) implies bits(ret).contains(
                x,
            ) by {
                let p = choose|p: Seq<int>| #[trigger] t.path_between(p, root, x);
                lemma_path_stays_in_nodes(t, p, p.len() - 1);
                assert(is_node(self.graph, x));
            }
            assert(bits(ret) =~= self.region_of(h as int));
            if t.reachable(root, h as int) {
                crate::laws::lemma_header_in_own_region(*self, h as int);
            }
        }
        ret
    }

    /// Returns the union of the successors of each node in `set`.
    pub fn successors_of_set(&self, set: &FixedBitSet) -> (r: FixedBitSet)
        requires
            self.wf(),
        ensures
            bits(r) == self.topology().successors(bits(*set)),
            forall|n: int| #[trigger] is_node(self.graph, n) ==> 0 <= n < bit_len(r),
            bit_len(r) == 0 || is_node(self.graph, bit_len(r) - 1),
    {
        let mut ret = self.mk_node_set();
        let members = bitset_ones(set);
        let ghost t = self.topology();
        let mut i: usize = 0;
        while i < members.len()
            invariant
                i <= members.len(),
                self.wf(),
                t == self.topology(),
                forall|n: int| #[trigger] is_node(self.graph, n) ==> 0 <= n < bit_len(ret),
                bit_len(ret) == 0 || is_node(self.graph, bit_len(ret) - 1),
                forall|k: int| 0 <= k < members@.len() ==> bits(*set).contains(#[trigger] members@[k] as int),
                forall|n: int|
                    bits(*set).contains(n) ==> exists|k: int|
                        0 <= k < members@.len() && #[trigger] members@[k] as int == n,
                forall|b: int|
                    bits(ret).contains(b) <==> exists|k: int|
                        0 <= k < i && #[trigger] t.has_arc(members@[k] as int, b),
            decreases members.len() - i,
        {
            let ni = members[i];
            let ghost outer = bits(ret);
            if ni <= u32::MAX as usize {
                let out = store_out_edges(&self.graph, ni);
                let mut j: usize = 0;
                while j < out.len()
                    invariant
                        j <= out.len(),
                        self.wf(),
                        forall|n: int| #[trigger] is_node(self.graph, n) ==> 0 <= n < bit_len(ret),
                        bit_len(ret) == 0 || is_node(self.graph, bit_len(ret) - 1),
                        forall|m: int|
                            0 <= m < out@.len() ==> {
                                &&& is_edge(self.graph, (#[trigger] out@[m]).0 as int)
                                &&& edge_source(self.graph, out@[m].0 as int) == ni as int
                                &&& edge_target(self.graph, out@[m].0 as int) == out@[m].1 as int
                            },
                        forall|b: int| #[trigger]
                            bits(ret).contains(b) <==> (outer.contains(b) || exists|m: int|
                                0 <= m < j && (#[trigger] out@[m]).1 as int == b),
                    decreases out.len() - j,
                {
                    let succ = out[j].1;
                    let ghost inner = bits(ret);
                    proof {
                        assert(is_edge(self.graph, out@[j as int].0 as int));
                        assert(topology_of(self.graph).arcs.dom().contains(out@[j as int].0 as int));
                        assert(is_node(self.graph, succ as int));
                    }
                    bitset_put(&mut ret, succ);
                    proof {
                        assert forall|b: int| #[trigger]
                            bits(ret).contains(b) <==> (outer.contains(b) || exists|m: int|
                                0 <= m < j + 1 && (#[trigger] out@[m]).1 as int == b) by {
                            if bits(ret).contains(b) && !outer.contains(b) {
                                if inner.contains(b) {
                                    let m = choose|m: int|
                                        0 <= m < j && (#[trigger] out@[m]).1 as int == b;
                                    assert(0 <= m < j + 1 && out@[m].1 as int == b);
                                } else {
                                    assert(b == succ as int);
                                    assert(0 <= j < j + 1 && out@[j as int].1 as int == b);
                                }
                            }
                            if outer.contains(b) {
                                assert(inner.contains(b));
                            }
                            if exists|m: int| 0 <= m < j + 1 && (#[trigger] out@[m]).1 as int == b {
                                let m = choose|m: int|
                                    0 <= m < j + 1 && (#[trigger] out@[m]).1 as int == b;
                                if m < j {
                                    assert(0 <= m < j && out@[m].1 as int == b);
                                    assert(inner.contains(b));
                                }
                            }
                        }
                    }
                    j += 1;
                }
                proof {
                    assert forall|b: int|
                        bits(ret).contains(b) <==> exists|k: int|
                            0 <= k < i + 1 && #[trigger] t.has_arc(members@[k] as int, b) by {
                        if bits(ret).contains(b) {
                            if outer.contains(b) {
                                let k = choose|k: int|
                                    0 <= k < i && #[trigger] t.has_arc(members@[k] as int, b);
                                assert(0 <= k < i + 1 && t.has_arc(members@[k] as int, b));
                            } else {
                                let m = choose|m: int|
                                    0 <= m < out@.len() && (#[trigger] out@[m]).1 as int == b;
                                lemma_edge_is_arc(self.graph, out@[m].0 as int);
                                assert(0 <= i < i + 1 && t.has_arc(members@[i as int] as int, b));
                            }
                        }
                        if exists|k: int| 0 <= k < i + 1 && #[trigger] t.has_arc(members@[k] as int, b) {
                            let k = choose|k: int|
                                0 <= k < i + 1 && #[trigger] t.has_arc(members@[k] as int, b);
                            if k < i {
                                assert(0 <= k < i && t.has_arc(members@[k] as int, b));
                                assert(outer.contains(b));
                            } else {
                                let e = choose|e: int| #[trigger]
                                    t.arcs.dom().contains(e) && t.arcs[e] == (ni as int, b);
                                assert(is_edge(self.graph, e) && edge_source(self.graph, e) == ni as int);
                                let m = choose|m: int|
                                    0 <= m < out@.len() && (#[trigger] out@[m]).0 as int == e;
                                assert(0 <= m < out@.len() && out@[m].1 as int == b);
                                assert(bits(ret).contains(b));
                            }
                        }
                    }
                }
            } else {
                proof {
                    assert forall|b: int| !t.has_arc(ni as int, b) by {
                        if t.has_arc(ni as int, b) {
                            let e = choose|e: int| #[trigger]
                                t.arcs.dom().contains(e) && t.arcs[e] == (ni as int, b);
                            assert(is_node(self.graph, ni as int));
                        }
                    }
                    assert forall|b: int|
                        bits(ret).contains(b) <==> exists|k: int|
                            0 <= k < i + 1 && #[trigger] t.has_arc(members@[k] as int, b) by {
                        if bits(ret).contains(b) {
                            let k = choose|k: int|
                                0 <= k < i && #[trigger] t.has_arc(members@[k] as int, b);
                            assert(0 <= k < i + 1 && t.has_arc(members@[k] as int, b));
                        }
                    }
                }
            }
            i += 1;
        }
        proof {
            let want = t.successors(bits(*set));
            assert forall|b: int| bits(ret).contains(b) <==> want.contains(b) by {
                if bits(ret).contains(b) {
                    let k = choose|k: int|
                        0 <= k < members@.len() && #[trigger] t.has_arc(members@[k] as int, b);
                    assert(bits(*set).contains(members@[k] as int));
                }
                if want.contains(b) {
                    let a = choose|a: int| bits(*set).contains(a) && #[trigger] t.has_arc(a, b);
                    let k = choose|k: int| 0 <= k < members@.len() && #[trigger] members@[k] as int == a;
                    assert(t.has_arc(members@[k] as int, b));
                }
            }
            assert(bits(ret) =~= want);
        }
        ret
    }

    /// Decides whether `n` heads a region with a single exit: it does when it
    /// dominates more than one node and all edges that leave the dominated
    /// nodes end at one and the same node. That node is returned, together
    /// with the number of nodes in the region.
    pub fn sese_region(&self, n: usize) -> (r: Option<(usize, usize)>)
        requires
            self.wf(),
        ensures
            match r {
                Some((s, size)) => {
                    &&& self.region_of(n as int).len() > 1
                    &&& self.region_of(n as int).len() == size
                    &&& self.region_exits(n as int) == set![s as int]
                    &&& is_node(self.graph, s as int)
                },
                None => self.region_of(n as int).len() <= 1 || forall|s: int|
                    self.region_exits(n as int) != set![s],
            },
    {
        let region = self.dominates_set(n);
        let size = bitset_count_ones(&region);
        // single-block regions aren't interesting
        if size > 1 {
            let succs = self.successors_of_set(&region);
            let outside = bitset_difference(&succs, &region);
            let ghost exits = self.region_exits(n as int);
            proof {
                assert forall|x: int| exits.contains(x) <==> exists|k: int|
                    0 <= k < outside@.len() && #[trigger] outside@[k] as int == x by {
                    if exits.contains(x) {
                        assert(bits(succs).contains(x) && !bits(region).contains(x));
                    }
                }
            }
            if outside.len() == 1 {
                proof {
                    assert(exits =~= set![outside@[0] as int]);
                    let s = outside@[0] as int;
                    assert(exits.contains(s));
                    let t = self.topology();
                    let a = choose|a: int|
                        self.region_of(n as int).contains(a) && #[trigger] t.has_arc(a, s);
                    let e = choose|e: int| #[trigger] t.arcs.dom().contains(e) && t.arcs[e] == (a, s);
                    assert(is_node(self.graph, s));
                }
                return Some((outside[0], size));
            }
            proof {
                assert forall|s: int| exits != set![s] by {
                    if outside@.len() == 0 {
                        assert(set![s].contains(s));
                    } else {
                        assert(exits.contains(outside@[0] as int));
                        assert(exits.contains(outside@[1] as int));
                    }
                }
            }
        }
        None
    }

    /// Decides whether `n` heads a region with a single exit, and returns the
    /// exit.
    pub fn sese_exit(&self, n: usize) -> (r: Option<usize>)
        requires
            self.wf(),
        ensures
            match r {
                Some(s) => self.region_of(n as int).len() > 1 && self.region_exits(n as int)
                    == set![s as int],
                None => self.region_of(n as int).len() <= 1 || forall|s: int|
                    self.region_exits(n as int) != set![s],
            },
    {
        match self.sese_region(n) {
            Some(found) => Some(found.0),
            None => None,
        }
    }
}

} // verus!
