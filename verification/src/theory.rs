//! Why the regions that a pass collapses are sound: the walk from a header
//! stays among the nodes that the header dominates, such a region is entered
//! only at its header, and collapsing it leaves every node reachable and
//! gives no node a dominator that it did not have.

use crate::cfg::ControlFlowGraph;
use crate::collapse::{collapsed, interior, kept_edges};
use crate::graph::{edge_source, edge_target, graph_edges, is_edge, is_node, lemma_edge_is_arc};
use crate::laws::{entered_only_at_header, region_nodes};
use crate::synth::{has_earlier_pred, position_in};
use crate::topology::{
    lemma_path_extend,
    lemma_path_stays_in_nodes,
    lemma_reachable_refl,
    lemma_reachable_step,
    Topology,
};
use vstd::prelude::*;

verus! {

/// `x` stands in `order`.
pub open spec fn in_order(order: Seq<usize>, x: int) -> bool {
    exists|j: int| 0 <= j < order.len() && #[trigger] order[j] as int == x
}

/// Every position of `q` stands in `order`.
pub open spec fn runs_inside(q: Seq<int>, order: Seq<usize>) -> bool {
    forall|i: int| 0 <= i < q.len() ==> in_order(order, #[trigger] q[i])
}

/// The region that a pass collapses at `h`: every node of the graph is
/// reachable, `order` can be collapsed into `h` with exit `s`, `s` is the
/// only exit of the nodes that `h` dominates, and `order` has as many nodes
/// as `h` dominates.
pub open spec fn dominated_region(cfg: ControlFlowGraph, h: usize, s: usize, order: Seq<usize>) -> bool {
    &&& cfg.wf()
    &&& cfg.all_reachable()
    &&& cfg.is_region_order(h, s, order)
    &&& cfg.region_exits(h as int) == set![s as int]
    &&& order.len() == cfg.region_of(h as int).len()
}

/// The start of a walk is a walk.
pub proof fn lemma_path_prefix(t: Topology, p: Seq<int>, i: int)
    requires
        t.is_path(p),
        0 <= i < p.len(),
    ensures
        t.path_between(p.take(i + 1), p[0], p[i]),
{
    let q = p.take(i + 1);
    assert forall|k: int| 0 <= k < q.len() - 1 implies #[trigger] t.step(q, k) by {
        assert(t.step(p, k));
    }
}

/// Each node of an order that can be collapsed is reached from the header by
/// a walk that stays within the order.
pub proof fn lemma_walk_inside(cfg: ControlFlowGraph, h: usize, s: usize, order: Seq<usize>, k: int)
    requires
        cfg.wf(),
        cfg.is_region_order(h, s, order),
        0 <= k < order.len(),
    ensures
        exists|q: Seq<int>| #[trigger]
            cfg.topology().path_between(q, h as int, order[k] as int) && runs_inside(q, order),
    decreases k,
{
    let t = cfg.topology();
    let g = cfg.graph;
    let full = order.push(s);
    if k == 0 {
        let q = seq![h as int];
        assert(is_node(g, order[0] as int));
        assert(t.path_between(q, h as int, order[0] as int));
        assert(runs_inside(q, order)) by {
            assert forall|i: int| 0 <= i < q.len() implies in_order(order, #[trigger] q[i]) by {
                assert(order[0] as int == q[i]);
            }
        }
    } else {
        assert(has_earlier_pred(g, full, k));
        let e = choose|e: int| #[trigger]
            is_edge(g, e) && edge_target(g, e) == full[k] as int && 0 <= position_in(
                full,
                edge_source(g, e),
            ) < k;
        let src = edge_source(g, e);
        let i = position_in(full, src);
        assert(full.contains(src as usize));
        assert(full[i] == src as usize);
        assert(full[i] == order[i]);
        assert(full[k] == order[k]);
        lemma_walk_inside(cfg, h, s, order, i);
        let qi = choose|q: Seq<int>| #[trigger]
            t.path_between(q, h as int, order[i] as int) && runs_inside(q, order);
        lemma_edge_is_arc(g, e);
        lemma_path_extend(t, qi, h as int, order[i] as int, order[k] as int);
        let q = qi.push(order[k] as int);
        assert(runs_inside(q, order)) by {
            assert forall|j: int| 0 <= j < q.len() implies in_order(order, #[trigger] q[j]) by {
                if j < qi.len() {
                    assert(in_order(order, qi[j]));
                } else {
                    assert(order[k] as int == q[j]);
                }
            }
        }
        assert(t.path_between(q, h as int, order[k] as int) && runs_inside(q, order));
    }
}

/// A walk from the header that stays within the order stays among the nodes
/// that the header dominates, where their only exit is not in the order.
pub proof fn lemma_walk_is_dominated(
    cfg: ControlFlowGraph,
    h: usize,
    s: usize,
    order: Seq<usize>,
    q: Seq<int>,
    i: int,
)
    requires
        cfg.wf(),
        cfg.topology().reachable(cfg.entry as int, h as int),
        cfg.region_exits(h as int) == set![s as int],
        !in_order(order, s as int),
        cfg.topology().is_path(q),
        q[0] == h as int,
        runs_inside(q, order),
        0 <= i < q.len(),
    ensures
        cfg.region_of(h as int).contains(q[i]),
    decreases i,
{
    let t = cfg.topology();
    let d = cfg.region_of(h as int);
    if i == 0 {
        crate::laws::lemma_header_in_own_region(cfg, h as int);
    } else {
        lemma_walk_is_dominated(cfg, h, s, order, q, i - 1);
        assert(t.step(q, i - 1));
        assert(t.has_arc(q[i - 1], q[i]));
        assert(t.successors(d).contains(q[i]));
        if !d.contains(q[i]) {
            assert(cfg.region_exits(h as int).contains(q[i]));
            assert(set![s as int].contains(q[i]));
            assert(in_order(order, q[i]));
        }
    }
}

/// The nodes of the region of a pass are exactly the nodes that its header
/// dominates.
pub proof fn lemma_region_is_dominated_set(cfg: ControlFlowGraph, h: usize, s: usize, order: Seq<usize>)
    requires
        dominated_region(cfg, h, s, order),
    ensures
        forall|x: int| in_order(order, x) <==> cfg.region_of(h as int).contains(x),
{
    let t = cfg.topology();
    let d = cfg.region_of(h as int);
    let full = order.push(s);
    assert(is_node(cfg.graph, order[0] as int));
    assert(!in_order(order, s as int)) by {
        if in_order(order, s as int) {
            let j = choose|j: int| 0 <= j < order.len() && #[trigger] order[j] as int == s as int;
            assert(full[j] == order[j]);
            assert(full[order.len() as int] == s);
        }
    }
    let ids = order.map_values(|x: usize| x as int);
    assert(ids.no_duplicates()) by {
        assert forall|i: int, j: int| 0 <= i < ids.len() && 0 <= j < ids.len() && i != j implies ids[i]
            != ids[j] by {
            assert(full[i] == order[i] && full[j] == order[j]);
        }
    }
    ids.unique_seq_to_set();
    assert(ids.to_set().subset_of(d)) by {
        assert forall|x: int| ids.to_set().contains(x) implies d.contains(x) by {
            let k = choose|k: int| 0 <= k < ids.len() && ids[k] == x;
            lemma_walk_inside(cfg, h, s, order, k);
            let q = choose|q: Seq<int>| #[trigger]
                t.path_between(q, h as int, order[k] as int) && runs_inside(q, order);
            lemma_walk_is_dominated(cfg, h, s, order, q, q.len() - 1);
        }
    }
    assert(d.subset_of(t.nodes)) by {
        assert forall|x: int| d.contains(x) implies t.nodes.contains(x) by {
            let p = choose|p: Seq<int>| #[trigger] t.path_between(p, cfg.entry as int, x);
            lemma_path_stays_in_nodes(t, p, p.len() - 1);
        }
    }
    vstd::set_lib::lemma_len_subset(d, t.nodes);
    vstd::set_lib::lemma_subset_equality(ids.to_set(), d);
    assert forall|x: int| in_order(order, x) <==> d.contains(x) by {
        if in_order(order, x) {
            let j = choose|j: int| 0 <= j < order.len() && #[trigger] order[j] as int == x;
            assert(ids[j] == x);
            assert(ids.to_set().contains(x));
        }
        if d.contains(x) {
            assert(ids.to_set().contains(x));
            let k = choose|k: int| 0 <= k < ids.len() && ids[k] == x;
            assert(order[k] as int == x);
        }
    }
}

/// Standing in the order is being the header or in the interior.
pub proof fn lemma_in_order_split(order: Seq<usize>, x: int)
    requires
        order.len() >= 1,
    ensures
        in_order(order, x) <==> region_nodes(order).contains(x),
        in_order(order, x) <==> (x == order[0] as int || interior(order).contains(x)),
{
    if in_order(order, x) {
        let j = choose|j: int| 0 <= j < order.len() && #[trigger] order[j] as int == x;
        if j >= 1 {
            assert(1 <= j < order.len() && j < order.len() && order[j] as int == x);
        }
    }
    if interior(order).contains(x) {
        let j = choose|j: int|
            1 <= j < order.len() && j < order.len() && #[trigger] order[j] as int == x;
        assert(0 <= j < order.len() && order[j] as int == x);
    }
    if x == order[0] as int {
        assert(0 <= 0 < order.len() && order[0] as int == x);
    }
}

/// The region of a pass is entered only at its header: an edge that ends in
/// the interior starts in the region.
pub proof fn lemma_region_entered_at_header(cfg: ControlFlowGraph, h: usize, s: usize, order: Seq<usize>)
    requires
        dominated_region(cfg, h, s, order),
    ensures
        entered_only_at_header(cfg, order),
{
    let t = cfg.topology();
    let g = cfg.graph;
    let d = cfg.region_of(h as int);
    let root = cfg.entry as int;
    let full = order.push(s);
    lemma_region_is_dominated_set(cfg, h, s, order);
    assert forall|e: int| #[trigger]
        is_edge(g, e) && interior(order).contains(edge_target(g, e)) implies region_nodes(
        order,
    ).contains(edge_source(g, e)) by {
        let x = edge_source(g, e);
        let y = edge_target(g, e);
        lemma_in_order_split(order, y);
        lemma_in_order_split(order, x);
        assert(d.contains(y));
        let j = choose|j: int|
            1 <= j < order.len() && j < order.len() && #[trigger] order[j] as int == y;
        assert(full[j] == order[j] && full[0] == order[0]);
        assert(y != h as int);
        lemma_edge_is_arc(g, e);
        assert(t.arcs.dom().contains(e));
        assert(is_node(g, x));
        assert(t.reachable(root, x));
        assert(t.dominates(root, h as int, x)) by {
            assert forall|p: Seq<int>| #[trigger] t.path_between(p, root, x) implies p.contains(
                h as int,
            ) by {
                lemma_path_extend(t, p, root, x, y);
                let longer = p.push(y);
                assert(longer.contains(h as int));
                let m = choose|m: int| 0 <= m < longer.len() && longer[m] == h as int;
                assert(m < p.len());
                assert(p[m] == h as int);
            }
        }
        assert(d.contains(x));
    }
}

/// A walk from the entry whose first positions avoid the interior of the
/// region is a walk of the collapsed graph that far.
proof fn lemma_clean_prefix_survives(
    before: ControlFlowGraph,
    after: ControlFlowGraph,
    h: usize,
    s: usize,
    order: Seq<usize>,
    p: Seq<int>,
    i: int,
)
    requires
        before.wf(),
        after.wf(),
        collapsed(before, after, h, s, order),
        before.topology().is_path(p),
        p[0] == before.entry as int,
        0 <= i < p.len(),
        forall|j: int| 0 <= j <= i ==> !interior(order).contains(#[trigger] p[j]),
    ensures
        after.topology().reachable(after.entry as int, p[i]),
    decreases i,
{
    let t0 = before.topology();
    let t1 = after.topology();
    let g0 = before.graph;
    let g1 = after.graph;
    if i == 0 {
        lemma_reachable_refl(t1, after.entry as int);
    } else {
        lemma_clean_prefix_survives(before, after, h, s, order, p, i - 1);
        assert(t0.step(p, i - 1));
        let e = choose|e: int| #[trigger] t0.arcs.dom().contains(e) && t0.arcs[e] == (p[i - 1], p[i]);
        assert(is_edge(g0, e));
        assert(!interior(order).contains(p[i - 1]) && !interior(order).contains(p[i]));
        assert(kept_edges(g0, interior(order)).contains(e));
        assert(graph_edges(g1).dom().contains(e));
        assert(is_edge(g1, e) && graph_edges(g1)[e] == graph_edges(g0)[e]);
        lemma_edge_is_arc(g1, e);
        lemma_reachable_step(t1, after.entry as int, p[i - 1], p[i]);
    }
}

/// The header of the region is reachable in the collapsed graph.
proof fn lemma_header_survives(
    before: ControlFlowGraph,
    after: ControlFlowGraph,
    h: usize,
    s: usize,
    order: Seq<usize>,
    p: Seq<int>,
    i: int,
)
    requires
        dominated_region(before, h, s, order),
        after.wf(),
        collapsed(before, after, h, s, order),
        before.topology().is_path(p),
        p[0] == before.entry as int,
        0 <= i < p.len(),
        p[i] == h as int,
    ensures
        after.topology().reachable(after.entry as int, h as int),
    decreases i,
{
    let t0 = before.topology();
    let d = before.region_of(h as int);
    if exists|j: int| 0 <= j < i && p[j] == h as int {
        let j = choose|j: int| 0 <= j < i && p[j] == h as int;
        lemma_header_survives(before, after, h, s, order, p, j);
    } else {
        lemma_region_is_dominated_set(before, h, s, order);
        assert forall|j: int| 0 <= j <= i implies !interior(order).contains(#[trigger] p[j]) by {
            lemma_in_order_split(order, p[j]);
            if interior(order).contains(p[j]) {
                assert(d.contains(p[j]));
                lemma_path_prefix(t0, p, j);
                let q = p.take(j + 1);
                assert(t0.path_between(q, before.entry as int, p[j]));
                assert(q.contains(h as int));
                let m = choose|m: int| 0 <= m < q.len() && q[m] == h as int;
                assert(p[m] == h as int);
                let full = order.push(s);
                let k = choose|k: int|
                    1 <= k < order.len() && k < order.len() && #[trigger] order[k] as int == p[j];
                assert(full[k] == order[k] && full[0] == order[0]);
                assert(p[j] != h as int);
                assert(m < j);
            }
        }
        lemma_clean_prefix_survives(before, after, h, s, order, p, i);
    }
}

/// Every position of a walk from the entry that lies outside the interior of
/// the region is reachable in the collapsed graph.
proof fn lemma_walk_survives(
    before: ControlFlowGraph,
    after: ControlFlowGraph,
    h: usize,
    s: usize,
    order: Seq<usize>,
    p: Seq<int>,
    i: int,
)
    requires
        dominated_region(before, h, s, order),
        after.wf(),
        collapsed(before, after, h, s, order),
        before.topology().is_path(p),
        p[0] == before.entry as int,
        0 <= i < p.len(),
        !interior(order).contains(p[i]),
    ensures
        after.topology().reachable(after.entry as int, p[i]),
    decreases i,
{
    let t0 = before.topology();
    let t1 = after.topology();
    let g0 = before.graph;
    let g1 = after.graph;
    let d = before.region_of(h as int);
    let root = after.entry as int;
    if i == 0 {
        lemma_reachable_refl(t1, root);
    } else {
        assert(t0.step(p, i - 1));
        let e = choose|e: int| #[trigger] t0.arcs.dom().contains(e) && t0.arcs[e] == (p[i - 1], p[i]);
        assert(is_edge(g0, e));
        if !interior(order).contains(p[i - 1]) {
            lemma_walk_survives(before, after, h, s, order, p, i - 1);
            assert(kept_edges(g0, interior(order)).contains(e));
            assert(graph_edges(g1).dom().contains(e));
            assert(is_edge(g1, e) && graph_edges(g1)[e] == graph_edges(g0)[e]);
            lemma_edge_is_arc(g1, e);
            lemma_reachable_step(t1, root, p[i - 1], p[i]);
        } else {
            lemma_region_is_dominated_set(before, h, s, order);
            lemma_in_order_split(order, p[i - 1]);
            lemma_in_order_split(order, p[i]);
            assert(d.contains(p[i - 1]));
            assert(t0.has_arc(p[i - 1], p[i]));
            assert(t0.successors(d).contains(p[i]));
            // the header is reachable from the entry before, so also after
            assert(is_node(g0, order[0] as int));
            let ph = choose|q: Seq<int>| #[trigger] t0.path_between(q, before.entry as int, h as int);
            lemma_header_survives(before, after, h, s, order, ph, ph.len() - 1);
            if d.contains(p[i]) {
                assert(p[i] == h as int);
            } else {
                assert(before.region_exits(h as int).contains(p[i]));
                assert(set![s as int].contains(p[i]));
                let fresh = choose|fresh: int|
                    {
                        &&& !kept_edges(g0, interior(order)).contains(fresh)
                        &&& #[trigger] is_edge(g1, fresh)
                        &&& graph_edges(g1).dom() == kept_edges(g0, interior(order)).insert(fresh)
                        &&& edge_source(g1, fresh) == h
                        &&& edge_target(g1, fresh) == s
                    };
                lemma_edge_is_arc(g1, fresh);
                lemma_reachable_step(t1, root, h as int, s as int);
            }
        }
    }
}

/// Collapsing the region of a pass leaves every node of the graph reachable
/// from the entry.
pub proof fn lemma_collapse_keeps_reachability(
    before: ControlFlowGraph,
    after: ControlFlowGraph,
    h: usize,
    s: usize,
    order: Seq<usize>,
)
    requires
        dominated_region(before, h, s, order),
        after.wf(),
        collapsed(before, after, h, s, order),
    ensures
        after.all_reachable(),
{
    let t0 = before.topology();
    assert forall|n: int| #[trigger] is_node(after.graph, n) implies after.topology().reachable(
        after.entry as int,
        n,
    ) by {
        assert(is_node(before.graph, n) && !interior(order).contains(n));
        let p = choose|p: Seq<int>| #[trigger] t0.path_between(p, before.entry as int, n);
        lemma_walk_survives(before, after, h, s, order, p, p.len() - 1);
    }
}

/// The last position up to `k` of a walk from the entry that lies outside
/// the interior of the region.
proof fn lemma_last_outside(order: Seq<usize>, p: Seq<int>, k: int) -> (j: int)
    requires
        0 <= k < p.len(),
        !interior(order).contains(p[0]),
    ensures
        0 <= j <= k,
        !interior(order).contains(p[j]),
        forall|m: int| j < m <= k ==> interior(order).contains(#[trigger] p[m]),
    decreases k,
{
    if !interior(order).contains(p[k]) {
        k
    } else {
        lemma_last_outside(order, p, k - 1)
    }
}

/// Every position of a walk from the entry that lies outside the interior of
/// the region is reached, in the collapsed graph, by a walk that avoids
/// whatever node the first walk avoids.
proof fn lemma_walk_survives_avoiding(
    before: ControlFlowGraph,
    after: ControlFlowGraph,
    h: usize,
    s: usize,
    order: Seq<usize>,
    p: Seq<int>,
    d: int,
    i: int,
)
    requires
        dominated_region(before, h, s, order),
        after.wf(),
        collapsed(before, after, h, s, order),
        before.topology().is_path(p),
        p[0] == before.entry as int,
        !p.contains(d),
        0 <= i < p.len(),
        !interior(order).contains(p[i]),
    ensures
        exists|q: Seq<int>| #[trigger]
            after.topology().path_between(q, after.entry as int, p[i]) && !q.contains(d),
    decreases i,
{
    let t0 = before.topology();
    let t1 = after.topology();
    let g0 = before.graph;
    let g1 = after.graph;
    let dset = before.region_of(h as int);
    let root = after.entry as int;
    assert(p[i] != d);
    if i == 0 {
        let q = seq![root];
        assert(is_node(g1, root));
        assert(t1.path_between(q, root, p[0]));
        assert(!q.contains(d)) by {
            if q.contains(d) {
                let m = choose|m: int| 0 <= m < q.len() && q[m] == d;
                assert(q[m] == p[0]);
            }
        }
    } else {
        assert(t0.step(p, i - 1));
        let e = choose|e: int| #[trigger] t0.arcs.dom().contains(e) && t0.arcs[e] == (p[i - 1], p[i]);
        assert(is_edge(g0, e));
        if !interior(order).contains(p[i - 1]) {
            lemma_walk_survives_avoiding(before, after, h, s, order, p, d, i - 1);
            let q0 = choose|q: Seq<int>| #[trigger]
                t1.path_between(q, root, p[i - 1]) && !q.contains(d);
            assert(kept_edges(g0, interior(order)).contains(e));
            assert(graph_edges(g1).dom().contains(e));
            assert(is_edge(g1, e) && graph_edges(g1)[e] == graph_edges(g0)[e]);
            lemma_edge_is_arc(g1, e);
            lemma_path_extend(t1, q0, root, p[i - 1], p[i]);
            let q = q0.push(p[i]);
            assert(!q.contains(d)) by {
                if q.contains(d) {
                    let m = choose|m: int| 0 <= m < q.len() && q[m] == d;
                    if m < q0.len() {
                        assert(q0[m] == d);
                    }
                }
            }
            assert(t1.path_between(q, root, p[i]) && !q.contains(d));
        } else {
            lemma_region_is_dominated_set(before, h, s, order);
            lemma_region_entered_at_header(before, h, s, order);
            assert(!interior(order).contains(p[0])) by {
                if interior(order).contains(p[0]) {
                    let k = choose|k: int|
                        1 <= k < order.len() && k < order.len() && #[trigger] order[k] as int == p[0];
                    assert(order[k] != before.entry);
                }
            }
            let j = lemma_last_outside(order, p, i - 1);
            assert(j < i - 1);
            assert(interior(order).contains(p[j + 1]));
            assert(t0.step(p, j));
            let ej = choose|x: int| #[trigger] t0.arcs.dom().contains(x) && t0.arcs[x] == (p[j], p[j + 1]);
            assert(is_edge(g0, ej) && interior(order).contains(edge_target(g0, ej)));
            assert(region_nodes(order).contains(edge_source(g0, ej)));
            assert(p[j] == h as int);
            lemma_walk_survives_avoiding(before, after, h, s, order, p, d, j);
            let q0 = choose|q: Seq<int>| #[trigger] t1.path_between(q, root, p[j]) && !q.contains(d);
            lemma_in_order_split(order, p[i - 1]);
            lemma_in_order_split(order, p[i]);
            assert(dset.contains(p[i - 1]));
            assert(t0.has_arc(p[i - 1], p[i]));
            assert(t0.successors(dset).contains(p[i]));
            if dset.contains(p[i]) {
                assert(p[i] == h as int);
                assert(t1.path_between(q0, root, p[i]) && !q0.contains(d));
            } else {
                assert(before.region_exits(h as int).contains(p[i]));
                assert(set![s as int].contains(p[i]));
                let fresh = choose|fresh: int|
                    {
                        &&& !kept_edges(g0, interior(order)).contains(fresh)
                        &&& #[trigger] is_edge(g1, fresh)
                        &&& graph_edges(g1).dom() == kept_edges(g0, interior(order)).insert(fresh)
                        &&& edge_source(g1, fresh) == h
                        &&& edge_target(g1, fresh) == s
                    };
                lemma_edge_is_arc(g1, fresh);
                lemma_path_extend(t1, q0, root, h as int, s as int);
                let q = q0.push(s as int);
                assert(!q.contains(d)) by {
                    if q.contains(d) {
                        let m = choose|m: int| 0 <= m < q.len() && q[m] == d;
                        if m < q0.len() {
                            assert(q0[m] == d);
                        }
                    }
                }
                assert(t1.path_between(q, root, p[i]) && !q.contains(d));
            }
        }
    }
}

/// Dominance consistency. Collapsing the region of a pass gives no node a
/// dominator that it did not have: the nodes that `d` dominates afterwards
/// are among those that it dominated before.
pub proof fn lemma_collapse_adds_no_dominator(
    before: ControlFlowGraph,
    after: ControlFlowGraph,
    h: usize,
    s: usize,
    order: Seq<usize>,
    d: int,
)
    requires
        dominated_region(before, h, s, order),
        after.wf(),
        collapsed(before, after, h, s, order),
    ensures
        after.region_of(d).subset_of(before.region_of(d)),
{
    let t0 = before.topology();
    let t1 = after.topology();
    let root = before.entry as int;
    assert forall|n: int| after.region_of(d).contains(n) implies before.region_of(d).contains(n) by {
        let w = choose|w: Seq<int>| #[trigger] t1.path_between(w, root, n);
        lemma_path_stays_in_nodes(t1, w, w.len() - 1);
        assert(is_node(after.graph, n));
        assert(is_node(before.graph, n) && !interior(order).contains(n));
        assert(t0.reachable(root, n));
        assert forall|p: Seq<int>| #[trigger] t0.path_between(p, root, n) implies p.contains(d) by {
            if !p.contains(d) {
                lemma_walk_survives_avoiding(before, after, h, s, order, p, d, p.len() - 1);
                let q = choose|q: Seq<int>| #[trigger]
                    t1.path_between(q, root, n) && !q.contains(d);
                assert(q.contains(d));
            }
        }
    }
}

/// Edge conservation for the regions of a pass: every edge that starts
/// outside the region is still there after the collapse, unchanged; no edge
/// that starts outside the region is new; and an edge that is gone or changed
/// started inside the region.
pub proof fn lemma_pass_conserves_outside_edges(
    before: ControlFlowGraph,
    after: ControlFlowGraph,
    h: usize,
    s: usize,
    order: Seq<usize>,
)
    requires
        dominated_region(before, h, s, order),
        collapsed(before, after, h, s, order),
    ensures
        forall|e: int| #[trigger]
            is_edge(before.graph, e) && !region_nodes(order).contains(edge_source(before.graph, e))
                ==> is_edge(after.graph, e) && graph_edges(after.graph)[e] == graph_edges(
                before.graph,
            )[e],
        forall|e: int| #[trigger]
            is_edge(after.graph, e) && !region_nodes(order).contains(edge_source(after.graph, e))
                ==> is_edge(before.graph, e) && graph_edges(after.graph)[e] == graph_edges(
                before.graph,
            )[e],
        forall|e: int| #[trigger]
            is_edge(before.graph, e) && !(is_edge(after.graph, e) && graph_edges(after.graph)[e]
                == graph_edges(before.graph)[e]) ==> region_nodes(order).contains(
                edge_source(before.graph, e),
            ),
{
    lemma_region_entered_at_header(before, h, s, order);
    crate::laws::lemma_collapse_conserves_outside_edges(before, after, h, s, order);
}

} // verus!
