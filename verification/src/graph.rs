//! The graph store: a `petgraph` stable directed graph whose nodes carry
//! program trees and whose edges carry branch predicates.
//!
//! Verus does not look inside the store. What it holds is named by
//! [`graph_nodes`] and [`graph_edges`], and every operation used by this crate
//! is declared here with a contract over those two names. Three more names
//! stand for what the store computes and no short formula gives: the lists of
//! a dominance relation, the order of a bounded depth-first walk, and the
//! order in which the edges into a node are walked. These contracts are
//! believed, not proved.

use crate::ast::{AstNode, SimpleCondition};
use crate::topology::Topology;
use petgraph::algo::dominators::Dominators;
use petgraph::graph::{EdgeIndex, NodeIndex};
use petgraph::stable_graph::StableGraph;
use petgraph::visit::{DfsPostOrder, EdgeRef, IntoNodeReferences, NodeIndexable, VisitMap, Walker};
use petgraph::Directed;
use petgraph::Direction::Incoming;
use vstd::prelude::*;

verus! {

/// `petgraph::Directed`, the marker of directed graphs, made known so that the
/// type of the store can be written. It has no values.
#[verifier::external_type_specification]
#[verifier::external_body]
pub struct ExDirected(Directed);

/// `petgraph::graph::NodeIndex`, made known so that the type of a dominance
/// relation can be written. Nothing is said of its values: this crate names
/// nodes by `usize`.
#[verifier::external_type_specification]
#[verifier::external_body]
#[verifier::reject_recursive_types(Ix)]
pub struct ExNodeIndex<Ix>(NodeIndex<Ix>);

/// `petgraph::stable_graph::StableGraph`, as an opaque value: what a store
/// holds is known only through [`graph_nodes`] and [`graph_edges`].
#[verifier::external_type_specification]
#[verifier::external_body]
#[verifier::reject_recursive_types(N)]
#[verifier::reject_recursive_types(E)]
#[verifier::reject_recursive_types(Ty)]
#[verifier::reject_recursive_types(Ix)]
pub struct ExStableGraph<N, E, Ty, Ix>(StableGraph<N, E, Ty, Ix>);

/// `petgraph::algo::dominators::Dominators`, as an opaque value: what a
/// relation answers is known only through [`dominator_lists`].
#[verifier::external_type_specification]
#[verifier::external_body]
#[verifier::reject_recursive_types(N)]
pub struct ExDominators<N: Copy + Eq + core::hash::Hash>(Dominators<N>);

/// The store used throughout this crate.
pub type CfgGraph = StableGraph<AstNode, SimpleCondition, Directed, u32>;

/// The dominance relation computed for one graph and one root.
pub type DominatorTree = Dominators<NodeIndex<u32>>;

/// The live nodes of a store: index to payload.
pub uninterp spec fn graph_nodes(g: StableGraph<AstNode, SimpleCondition, Directed, u32>) -> Map<
    int,
    AstNode,
>;

/// The live edges of a store: index to source, target and predicate.
pub uninterp spec fn graph_edges(g: StableGraph<AstNode, SimpleCondition, Directed, u32>) -> Map<
    int,
    (int, int, SimpleCondition),
>;

/// The shape of a store: its live nodes, and its live edges reduced to their
/// endpoints.
pub open spec fn topology_of(g: CfgGraph) -> Topology {
    Topology {
        nodes: graph_nodes(g).dom(),
        arcs: Map::new(
            |e: int| graph_edges(g).dom().contains(e),
            |e: int| (graph_edges(g)[e].0, graph_edges(g)[e].1),
        ),
    }
}

/// `e` is a live edge of the store.
pub open spec fn is_edge(g: CfgGraph, e: int) -> bool {
    graph_edges(g).dom().contains(e)
}

/// `n` is a live node of the store.
pub open spec fn is_node(g: CfgGraph, n: int) -> bool {
    graph_nodes(g).dom().contains(n)
}

/// The node at which edge `e` starts.
pub open spec fn edge_source(g: CfgGraph, e: int) -> int {
    graph_edges(g)[e].0
}

/// The node at which edge `e` ends.
pub open spec fn edge_target(g: CfgGraph, e: int) -> int {
    graph_edges(g)[e].1
}

/// Finitely many nodes and edges, every edge joins two live nodes, and every
/// index fits in 32 bits.
pub open spec fn store_wf(g: CfgGraph) -> bool {
    &&& topology_of(g).wf()
    &&& forall|n: int| #[trigger] is_node(g, n) ==> 0 <= n < u32::MAX
    &&& forall|e: int| #[trigger] is_edge(g, e) ==> 0 <= e < u32::MAX
}

/// An edge of the store is an arc of its shape.
pub proof fn lemma_edge_is_arc(g: CfgGraph, e: int)
    requires
        is_edge(g, e),
    ensures
        topology_of(g).has_arc(edge_source(g, e), edge_target(g, e)),
{
    let t = topology_of(g);
    assert(t.arcs.dom().contains(e));
    assert(t.arcs[e] == (edge_source(g, e), edge_target(g, e)));
}

/// What a dominance relation answers: for each node that the root reaches,
/// the nodes that `Dominators::dominators` lists for it.
pub uninterp spec fn dominator_lists(d: Dominators<NodeIndex<u32>>) -> Map<int, Seq<int>>;

/// The order in which a post-order depth-first walk from `start` gives out
/// nodes when `stop` is marked as discovered beforehand.
pub uninterp spec fn bounded_post_order(
    g: StableGraph<AstNode, SimpleCondition, Directed, u32>,
    start: int,
    stop: int,
) -> Seq<int>;

/// The edges that end at node `a`, each with its index and its source, in the
/// order in which `StableGraph::edges_directed` walks them.
pub uninterp spec fn in_edge_order(
    g: StableGraph<AstNode, SimpleCondition, Directed, u32>,
    a: int,
) -> Seq<(int, int)>;

/// Calls `StableGraph::new`: the new store holds no node and no edge.
#[verifier::external_body]
pub(crate) fn store_new() -> (g: CfgGraph)
    ensures
        graph_nodes(g).dom() == Set::<int>::empty(),
        graph_edges(g).dom() == Set::<int>::empty(),
{
    StableGraph::new()
}

/// Calls `StableGraph::add_node`, which panics once the store holds the
/// largest number of nodes that a 32-bit index admits. The node is added under
/// an index that was not in use, below `u32::MAX`; nothing else changes.
#[verifier::external_body]
pub(crate) fn store_add_node(g: &mut CfgGraph, payload: AstNode) -> (r: usize)
    requires
        graph_nodes(*old(g)).dom().finite(),
        graph_nodes(*old(g)).dom().len() < u32::MAX,
    ensures
        r < u32::MAX,
        !graph_nodes(*old(g)).dom().contains(r as int),
        graph_nodes(*final(g)) == graph_nodes(*old(g)).insert(r as int, payload),
        graph_edges(*final(g)) == graph_edges(*old(g)),
{
    g.add_node(payload).index()
}

/// Calls `StableGraph::add_edge`, which panics when an endpoint is not a live
/// node or the store is full. The edge is added under an index that was not in
/// use; nothing else changes.
#[verifier::external_body]
pub(crate) fn store_add_edge(g: &mut CfgGraph, a: usize, b: usize, label: SimpleCondition) -> (r:
    usize)
    requires
        graph_nodes(*old(g)).dom().contains(a as int),
        graph_nodes(*old(g)).dom().contains(b as int),
        graph_edges(*old(g)).dom().finite(),
        graph_edges(*old(g)).dom().len() < u32::MAX,
    ensures
        r < u32::MAX,
        !graph_edges(*old(g)).dom().contains(r as int),
        graph_edges(*final(g)) == graph_edges(*old(g)).insert(r as int, (a as int, b as int, label)),
        graph_nodes(*final(g)) == graph_nodes(*old(g)),
{
    g.add_edge(NodeIndex::new(a), NodeIndex::new(b), label).index()
}

/// Calls `StableGraph::remove_node`. A live node leaves the store together
/// with every edge that starts or ends at it, and its payload is returned; for
/// an index that names no live node nothing changes and `None` is returned.
#[verifier::external_body]
pub(crate) fn store_remove_node(g: &mut CfgGraph, a: usize) -> (r: Option<AstNode>)
    requires
        a <= u32::MAX,
    ensures
        r == if graph_nodes(*old(g)).dom().contains(a as int) {
            Some(graph_nodes(*old(g))[a as int])
        } else {
            None
        },
        graph_nodes(*final(g)) == graph_nodes(*old(g)).remove(a as int),
        graph_edges(*final(g)) == if graph_nodes(*old(g)).dom().contains(a as int) {
            graph_edges(*old(g)).restrict(
                Set::new(
                    |e: int| graph_edges(*old(g))[e].0 != a as int && graph_edges(*old(g))[e].1 != a as int,
                ),
            )
        } else {
            graph_edges(*old(g))
        },
{
    g.remove_node(NodeIndex::new(a))
}

/// Indexes the store mutably by a node (`IndexMut`, which panics when the node
/// is not live) and swaps the payload found there with `payload` through
/// `std::mem::replace`. The old payload is returned; edges are untouched.
#[verifier::external_body]
pub(crate) fn store_replace_payload(g: &mut CfgGraph, a: usize, payload: AstNode) -> (r: AstNode)
    requires
        graph_nodes(*old(g)).dom().contains(a as int),
    ensures
        r == graph_nodes(*old(g))[a as int],
        graph_nodes(*final(g)) == graph_nodes(*old(g)).insert(a as int, payload),
        graph_edges(*final(g)) == graph_edges(*old(g)),
{
    std::mem::replace(&mut g[NodeIndex::new(a)], payload)
}

/// Calls `StableGraph::node_count`: the number of live nodes.
#[verifier::external_body]
pub(crate) fn store_node_count(g: &CfgGraph) -> (r: usize)
    ensures
        r == graph_nodes(*g).dom().len(),
{
    g.node_count()
}

/// Calls `StableGraph::edge_count`: the number of live edges.
#[verifier::external_body]
pub(crate) fn store_edge_count(g: &CfgGraph) -> (r: usize)
    ensures
        r == graph_edges(*g).dom().len(),
{
    g.edge_count()
}

/// Calls `StableGraph::remove_edge`. A live edge leaves the store and its
/// predicate is returned; for an index that names no live edge nothing
/// changes and `None` is returned. Nodes are untouched.
#[verifier::external_body]
pub(crate) fn store_remove_edge(g: &mut CfgGraph, e: usize) -> (r: Option<SimpleCondition>)
    requires
        e <= u32::MAX,
    ensures
        r == if graph_edges(*old(g)).dom().contains(e as int) {
            Some(graph_edges(*old(g))[e as int].2)
        } else {
            None
        },
        graph_edges(*final(g)) == graph_edges(*old(g)).remove(e as int),
        graph_nodes(*final(g)) == graph_nodes(*old(g)),
{
    g.remove_edge(EdgeIndex::new(e))
}

/// Calls `StableGraph::contains_node`.
#[verifier::external_body]
pub(crate) fn store_contains_node(g: &CfgGraph, a: usize) -> (r: bool)
    requires
        a <= u32::MAX,
    ensures
        r == graph_nodes(*g).dom().contains(a as int),
{
    g.contains_node(NodeIndex::new(a))
}

/// Calls `NodeIndexable::node_bound`: one more than the largest live node
/// index, or zero for a store without nodes.
#[verifier::external_body]
pub(crate) fn store_node_bound(g: &CfgGraph) -> (r: usize)
    ensures
        r <= u32::MAX,
        forall|n: int| graph_nodes(*g).dom().contains(n) ==> 0 <= n < r,
        r == 0 || graph_nodes(*g).dom().contains(r - 1),
{
    g.node_bound()
}

/// Calls `IntoNodeReferences::node_references` and keeps the indices: the live
/// nodes, each once, in ascending order.
#[verifier::external_body]
pub(crate) fn store_node_indices(g: &CfgGraph) -> (r: Vec<usize>)
    ensures
        forall|i: int, j: int| 0 <= i < j < r@.len() ==> r@[i] < r@[j],
        forall|i: int| 0 <= i < r@.len() ==> graph_nodes(*g).dom().contains(#[trigger] r@[i] as int),
        forall|n: int|
            graph_nodes(*g).dom().contains(n) ==> exists|i: int|
                0 <= i < r@.len() && #[trigger] r@[i] as int == n,
{
    g.node_references().map(|(n, _)| n.index()).collect()
}

/// Calls `StableGraph::edges` and keeps, for each edge, its index and its
/// target: the live edges that start at `a`, each once.
#[verifier::external_body]
pub(crate) fn store_out_edges(g: &CfgGraph, a: usize) -> (r: Vec<(usize, usize)>)
    requires
        a <= u32::MAX,
    ensures
        forall|i: int, j: int| 0 <= i < j < r@.len() ==> r@[i].0 != r@[j].0,
        forall|i: int|
            0 <= i < r@.len() ==> {
                &&& graph_edges(*g).dom().contains((#[trigger] r@[i]).0 as int)
                &&& graph_edges(*g)[r@[i].0 as int].0 == a as int
                &&& graph_edges(*g)[r@[i].0 as int].1 == r@[i].1 as int
            },
        forall|e: int|
            graph_edges(*g).dom().contains(e) && graph_edges(*g)[e].0 == a as int ==> exists|i: int|
                0 <= i < r@.len() && (#[trigger] r@[i]).0 as int == e,
{
    g.edges(NodeIndex::new(a)).map(|e| (e.id().index(), e.target().index())).collect()
}

/// Calls `StableGraph::edges_directed` for the incoming direction and keeps,
/// for each edge, its index and its source: the live edges that end at `a`,
/// each once, in the order named by [`in_edge_order`].
#[verifier::external_body]
pub(crate) fn store_in_edges(g: &CfgGraph, a: usize) -> (r: Vec<(usize, usize)>)
    requires
        a <= u32::MAX,
    ensures
        r@.map_values(|p: (usize, usize)| (p.0 as int, p.1 as int)) == in_edge_order(*g, a as int),
        forall|i: int, j: int| 0 <= i < j < r@.len() ==> r@[i].0 != r@[j].0,
        forall|i: int|
            0 <= i < r@.len() ==> {
                &&& graph_edges(*g).dom().contains((#[trigger] r@[i]).0 as int)
                &&& graph_edges(*g)[r@[i].0 as int].1 == a as int
                &&& graph_edges(*g)[r@[i].0 as int].0 == r@[i].1 as int
            },
        forall|e: int|
            graph_edges(*g).dom().contains(e) && graph_edges(*g)[e].1 == a as int ==> exists|i: int|
                0 <= i < r@.len() && (#[trigger] r@[i]).0 as int == e,
{
    g.edges_directed(NodeIndex::new(a), Incoming).map(|e| (e.id().index(), e.source().index())).collect()
}

/// Indexes the store by an edge (`Index`, which panics when the edge is not
/// live): the predicate that the edge carries.
#[verifier::external_body]
pub(crate) fn store_edge_label(g: &CfgGraph, e: usize) -> (r: &SimpleCondition)
    requires
        graph_edges(*g).dom().contains(e as int),
    ensures
        *r == graph_edges(*g)[e as int].2,
{
    &g[EdgeIndex::new(e)]
}

/// Calls `petgraph::algo::dominators::simple_fast` with `root` as the root. The
/// relation it returns covers exactly the nodes that `root` reaches, and lists
/// for each of them exactly the nodes that lie on every walk from `root` to it.
#[verifier::external_body]
pub(crate) fn store_dominators(g: &CfgGraph, root: usize) -> (d: DominatorTree)
    requires
        graph_nodes(*g).dom().contains(root as int),
    ensures
        forall|n: int| #[trigger]
            dominator_lists(d).dom().contains(n) <==> topology_of(*g).reachable(root as int, n),
        forall|n: int, x: int|
            dominator_lists(d).dom().contains(n) ==> (#[trigger] dominator_lists(d)[n].contains(x)
                <==> topology_of(*g).dominates(root as int, x, n)),
{
    petgraph::algo::dominators::simple_fast(g, NodeIndex::new(root))
}

/// Calls `Dominators::dominators` and collects what it iterates: the list for
/// `n`, or `None` for a node that the relation does not cover.
#[verifier::external_body]
pub(crate) fn dominators_of(d: &DominatorTree, n: usize) -> (r: Option<Vec<usize>>)
    requires
        n <= u32::MAX,
    ensures
        r.is_some() == dominator_lists(*d).dom().contains(n as int),
        r.is_some() ==> r.unwrap()@.map_values(|x: usize| x as int) == dominator_lists(*d)[n as int],
{
    d.dominators(NodeIndex::new(n)).map(|it| it.map(|x| x.index()).collect())
}

/// Makes a `DfsPostOrder` for `start`, marks `stop` as discovered in it, and
/// collects what it walks.
#[verifier::external_body]
pub(crate) fn store_bounded_post_order(g: &CfgGraph, start: usize, stop: usize) -> (r: Vec<usize>)
    requires
        graph_nodes(*g).dom().contains(start as int),
        graph_nodes(*g).dom().contains(stop as int),
    ensures
        r@.map_values(|x: usize| x as int) == bounded_post_order(*g, start as int, stop as int),
{
    let mut walk = DfsPostOrder::new(g, NodeIndex::new(start));
    walk.discovered.visit(NodeIndex::<u32>::new(stop));
    walk.iter(g).map(|n| n.index()).collect()
}

} // verus!
