//! The shape of a graph, without payloads: nodes, arcs, paths, reachability
//! and dominance. Everything here is specification.

use vstd::prelude::*;

verus! {

/// Nodes by index, and arcs by index with their two endpoints.
pub struct Topology {
    pub nodes: Set<int>,
    pub arcs: Map<int, (int, int)>,
}

impl Topology {
    /// Finitely many nodes and arcs, and every arc joins two nodes.
    pub open spec fn wf(self) -> bool {
        &&& self.nodes.finite()
        &&& self.arcs.dom().finite()
        &&& forall|e: int| #[trigger]
            self.arcs.dom().contains(e) ==> self.nodes.contains(self.arcs[e].0)
                && self.nodes.contains(self.arcs[e].1)
    }

    /// Some arc leads from `a` to `b`.
    pub open spec fn has_arc(self, a: int, b: int) -> bool {
        exists|e: int| #[trigger] self.arcs.dom().contains(e) && self.arcs[e] == (a, b)
    }

    /// The step from position `i` of `p` to the next position follows an arc.
    pub open spec fn step(self, p: Seq<int>, i: int) -> bool {
        self.has_arc(p[i], p[i + 1])
    }

    /// `p` is a walk: it starts at a node and every step follows an arc.
    pub open spec fn is_path(self, p: Seq<int>) -> bool {
        &&& p.len() >= 1
        &&& self.nodes.contains(p[0])
        &&& forall|i: int| 0 <= i < p.len() - 1 ==> #[trigger] self.step(p, i)
    }

    /// `p` is a walk from `a` to `b`.
    pub open spec fn path_between(self, p: Seq<int>, a: int, b: int) -> bool {
        self.is_path(p) && p[0] == a && p.last() == b
    }

    /// Some walk leads from `a` to `b`.
    pub open spec fn reachable(self, a: int, b: int) -> bool {
        exists|p: Seq<int>| #[trigger] self.path_between(p, a, b)
    }

    /// Every walk from `root` to `n` passes through `d`.
    pub open spec fn dominates(self, root: int, d: int, n: int) -> bool {
        forall|p: Seq<int>| #[trigger] self.path_between(p, root, n) ==> p.contains(d)
    }

    /// The nodes reachable from `root` that `d` dominates.
    pub open spec fn dominated_by(self, root: int, d: int) -> Set<int> {
        Set::new(|n: int| self.reachable(root, n) && self.dominates(root, d, n))
    }

    /// The targets of the arcs that start in `s`.
    pub open spec fn successors(self, s: Set<int>) -> Set<int> {
        Set::new(|b: int| exists|a: int| s.contains(a) && #[trigger] self.has_arc(a, b))
    }
}

/// A walk ends at a node.
pub proof fn lemma_path_stays_in_nodes(t: Topology, p: Seq<int>, i: int)
    requires
        t.wf(),
        t.is_path(p),
        0 <= i < p.len(),
    ensures
        t.nodes.contains(p[i]),
    decreases i,
{
    if i > 0 {
        assert(t.step(p, i - 1));
        let e = choose|e: int| #[trigger] t.arcs.dom().contains(e) && t.arcs[e] == (p[i - 1], p[i]);
        assert(t.arcs.dom().contains(e));
    }
}

/// A walk extended by one arc is a walk.
pub proof fn lemma_path_extend(t: Topology, p: Seq<int>, a: int, b: int, c: int)
    requires
        t.path_between(p, a, b),
        t.has_arc(b, c),
    ensures
        t.path_between(p.push(c), a, c),
{
    let q = p.push(c);
    assert forall|i: int| 0 <= i < q.len() - 1 implies #[trigger] t.step(q, i) by {
        if i < p.len() - 1 {
            assert(t.step(p, i));
        }
    }
}

/// A node reaches itself.
pub proof fn lemma_reachable_refl(t: Topology, a: int)
    requires
        t.nodes.contains(a),
    ensures
        t.reachable(a, a),
{
    let p = seq![a];
    assert(t.path_between(p, a, a));
}

/// Reachability follows arcs.
pub proof fn lemma_reachable_step(t: Topology, a: int, b: int, c: int)
    requires
        t.reachable(a, b),
        t.has_arc(b, c),
    ensures
        t.reachable(a, c),
{
    let p = choose|p: Seq<int>| #[trigger] t.path_between(p, a, b);
    lemma_path_extend(t, p, a, b, c);
    assert(t.path_between(p.push(c), a, c));
}

/// What a successor reaches, the node reaches.
pub proof fn lemma_reachable_from_successor(t: Topology, a: int, b: int, c: int)
    requires
        t.nodes.contains(a),
        t.has_arc(a, b),
        t.reachable(b, c),
    ensures
        t.reachable(a, c),
{
    let p = choose|p: Seq<int>| #[trigger] t.path_between(p, b, c);
    let q = seq![a] + p;
    assert forall|i: int| 0 <= i < q.len() - 1 implies #[trigger] t.step(q, i) by {
        if i == 0 {
            assert(q[0] == a && q[1] == p[0]);
        } else {
            assert(t.step(p, i - 1));
            assert(q[i] == p[i - 1] && q[i + 1] == p[i]);
        }
    }
    assert(t.path_between(q, a, c));
}

/// A set that holds the start of a walk and is closed under arcs holds every
/// position of the walk.
pub proof fn lemma_closed_set_holds_path(t: Topology, s: Set<int>, p: Seq<int>, i: int)
    requires
        t.is_path(p),
        s.contains(p[0]),
        forall|a: int, b: int| s.contains(a) && #[trigger] t.has_arc(a, b) ==> s.contains(b),
        0 <= i < p.len(),
    ensures
        s.contains(p[i]),
    decreases i,
{
    if i > 0 {
        lemma_closed_set_holds_path(t, s, p, i - 1);
        assert(t.step(p, i - 1));
    }
}

/// A set that holds `root` and is closed under arcs holds all that `root`
/// reaches.
pub proof fn lemma_closed_set_holds_reachable(t: Topology, s: Set<int>, root: int)
    requires
        s.contains(root),
        forall|a: int, b: int| s.contains(a) && #[trigger] t.has_arc(a, b) ==> s.contains(b),
    ensures
        forall|n: int| t.reachable(root, n) ==> s.contains(n),
{
    assert forall|n: int| t.reachable(root, n) implies s.contains(n) by {
        let p = choose|p: Seq<int>| #[trigger] t.path_between(p, root, n);
        lemma_closed_set_holds_path(t, s, p, p.len() - 1);
    }
}

} // verus!
