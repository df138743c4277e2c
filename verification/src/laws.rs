//! What holds of the operations of this crate taken together.

use crate::ast::ConditionView;
use crate::cfg::ControlFlowGraph;
use crate::collapse::{collapsed, interior, kept_edges};
use crate::condition::{and_of, or_of};
use crate::graph::{edge_source, edge_target, graph_edges, is_edge};
use crate::topology::Topology;
use vstd::prelude::*;

verus! {

/// A conjunction or a disjunction built from exactly one operand is that
/// operand.
pub proof fn lemma_single_operand(c: ConditionView)
    ensures
        and_of(seq![c]) == c,
        or_of(seq![c]) == c,
{
}

/// A node that the entry reaches lies in the region that it dominates.
pub proof fn lemma_header_in_own_region(cfg: ControlFlowGraph, h: int)
    requires
        cfg.topology().reachable(cfg.entry as int, h),
    ensures
        cfg.region_of(h).contains(h),
{
    let t = cfg.topology();
    assert forall|p: Seq<int>| #[trigger] t.path_between(p, cfg.entry as int, h) implies p.contains(
        h,
    ) by {
        assert(p[p.len() - 1] == h);
    }
}

/// `t` without the nodes `gone` and without the arcs that touch them.
pub open spec fn without_nodes(t: Topology, gone: Set<int>) -> Topology {
    Topology {
        nodes: t.nodes.difference(gone),
        arcs: t.arcs.restrict(
            Set::new(|e: int| !gone.contains(t.arcs[e].0) && !gone.contains(t.arcs[e].1)),
        ),
    }
}

/// Taking nodes out of a graph gives a node a new dominator only where some
/// walk from the root to that node ran through a node that was taken out: if
/// `d` dominates `n` afterwards and did not before, then before there was a
/// walk from `root` to `n` that avoided `d` and met a removed node.
pub proof fn lemma_new_dominator_needs_removed_node(
    t: Topology,
    gone: Set<int>,
    root: int,
    d: int,
    n: int,
)
    requires
        without_nodes(t, gone).dominates(root, d, n),
        !t.dominates(root, d, n),
    ensures
        exists|p: Seq<int>, i: int|
            #![trigger t.path_between(p, root, n), p[i]]
            t.path_between(p, root, n) && !p.contains(d) && 0 <= i < p.len() && gone.contains(p[i]),
{
    let u = without_nodes(t, gone);
    let p = choose|p: Seq<int>| #[trigger] t.path_between(p, root, n) && !p.contains(d);
    if forall|i: int| 0 <= i < p.len() ==> !gone.contains(#[trigger] p[i]) {
        assert(u.is_path(p)) by {
            assert(!gone.contains(p[0]));
            assert forall|i: int| 0 <= i < p.len() - 1 implies #[trigger] u.step(p, i) by {
                assert(t.step(p, i));
                let e = choose|e: int| #[trigger]
                    t.arcs.dom().contains(e) && t.arcs[e] == (p[i], p[i + 1]);
                assert(!gone.contains(p[i]) && !gone.contains(p[i + 1]));
                assert(u.arcs.dom().contains(e) && u.arcs[e] == (p[i], p[i + 1]));
            }
        }
        assert(u.path_between(p, root, n));
        assert(p.contains(d));
    } else {
        let i = choose|i: int| 0 <= i < p.len() && gone.contains(#[trigger] p[i]);
        assert(t.path_between(p, root, n) && !p.contains(d) && 0 <= i < p.len() && gone.contains(
            p[i],
        ));
    }
}

/// The region of `order`: its header and its interior.
pub open spec fn region_nodes(order: Seq<usize>) -> Set<int> {
    interior(order).insert(order[0] as int)
}

/// The interior of the region is entered only from within the region.
pub open spec fn entered_only_at_header(cfg: ControlFlowGraph, order: Seq<usize>) -> bool {
    forall|e: int| #[trigger]
        is_edge(cfg.graph, e) && interior(order).contains(edge_target(cfg.graph, e))
            ==> region_nodes(order).contains(edge_source(cfg.graph, e))
}

/// Edge conservation. When a region that is entered only at its header is
/// collapsed, every edge that starts outside the region is still there, under
/// its index and with its endpoints and its predicate; every edge that starts
/// outside the region afterwards was there before; and an edge that is gone
/// or changed started inside the region.
pub proof fn lemma_collapse_conserves_outside_edges(
    before: ControlFlowGraph,
    after: ControlFlowGraph,
    header: usize,
    successor: usize,
    order: Seq<usize>,
)
    requires
        before.wf(),
        before.is_region_order(header, successor, order),
        entered_only_at_header(before, order),
        collapsed(before, after, header, successor, order),
    ensures
        forall|e: int| #[trigger]
            is_edge(before.graph, e) && !region_nodes(order).contains(edge_source(before.graph, e))
                ==> is_edge(after.graph, e) && graph_edges(after.graph)[e] == graph_edges(
                before.graph,
            )[e],
        forall|e: int| #[trigger]
            is_edge(after.graph, e) && !region_nodes(order).contains(edge_source(after.graph, e))
                ==> is_edge(before.graph, e) && graph_edges(after.graph)[e] == graph_edges(
                before.graph,
            )[e],
        forall|e: int| #[trigger]
            is_edge(before.graph, e) && !(is_edge(after.graph, e) && graph_edges(after.graph)[e]
                == graph_edges(before.graph)[e]) ==> region_nodes(order).contains(
                edge_source(before.graph, e),
            ),
{
    let g0 = before.graph;
    let g1 = after.graph;
    let gone = interior(order);
    let kept = kept_edges(g0, gone);
    let fresh = choose|fresh: int|
        {
            &&& !kept_edges(g0, gone).contains(fresh)
            &&& #[trigger] is_edge(g1, fresh)
            &&& graph_edges(g1).dom() == kept_edges(g0, gone).insert(fresh)
            &&& edge_source(g1, fresh) == header
            &&& edge_target(g1, fresh) == successor
            &&& forall|e: int| #[trigger]
                kept_edges(g0, gone).contains(e) ==> graph_edges(g1)[e] == graph_edges(g0)[e]
        };
    assert(region_nodes(order).contains(header as int));
    assert forall|e: int| #[trigger]
        is_edge(g0, e) && !region_nodes(order).contains(edge_source(g0, e)) implies is_edge(g1, e)
        && graph_edges(g1)[e] == graph_edges(g0)[e] by {
        assert(kept.contains(e));
        assert(graph_edges(g1).dom().contains(e));
    }
    assert forall|e: int| #[trigger]
        is_edge(g1, e) && !region_nodes(order).contains(edge_source(g1, e)) implies is_edge(g0, e)
        && graph_edges(g1)[e] == graph_edges(g0)[e] by {
        assert(graph_edges(g1).dom().contains(e));
        assert(e != fresh);
        assert(kept.contains(e));
    }
    assert forall|e: int| #[trigger]
        is_edge(g0, e) && !(is_edge(g1, e) && graph_edges(g1)[e] == graph_edges(g0)[e])
        implies region_nodes(order).contains(edge_source(g0, e)) by {
        if !region_nodes(order).contains(edge_source(g0, e)) {
            assert(kept.contains(e));
            assert(graph_edges(g1).dom().contains(e));
        }
    }
}

} // verus!
