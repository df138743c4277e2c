//! Region collapse: the nodes of a region with a single exit are folded into
//! the header of the region, which keeps its place in the graph.

use crate::ast::{ast_view, AstNode, AstView, Condition, ConditionView, SimpleCondition};
use crate::cfg::ControlFlowGraph;
use crate::condition::{no_short_operands, reach_view, reaches_view};
use crate::graph::{
    edge_source,
    edge_target,
    graph_edges,
    graph_nodes,
    is_edge,
    is_node,
    store_add_edge,
    store_contains_node,
    store_remove_node,
    store_replace_payload,
    store_wf,
    topology_of,
    CfgGraph,
};
use crate::synth::{entered_at, entered_from_earlier, has_earlier_pred, position_in, reach_at};
use vstd::prelude::*;

verus! {

/// The condition that guards a part of a sequence: the reaching condition of
/// the node, or the predicate that always holds where the node is reached
/// unconditionally.
pub open spec fn guard_of(reach: Option<ConditionView>) -> ConditionView {
    match reach {
        None => ConditionView::Simple(Seq::empty()),
        Some(c) => c,
    }
}

/// A part of a sequence: the payload under the condition that guards it,
/// with no alternative.
pub open spec fn guarded(reach: Option<ConditionView>, payload: AstView) -> AstView {
    AstView::Cond(guard_of(reach), Box::new(payload), None)
}

/// The label that the edge to the exit carries: the exit condition where it
/// is a single predicate, else the empty label.
pub open spec fn exit_label(exit: Option<ConditionView>) -> Seq<char> {
    match exit {
        Some(ConditionView::Simple(l)) => l,
        _ => Seq::empty(),
    }
}

/// The nodes that stand in `order` at the first `k` positions, the header at
/// position 0 excepted.
pub open spec fn interior_upto(order: Seq<usize>, k: int) -> Set<int> {
    Set::new(|n: int| exists|j: int| 1 <= j < k && j < order.len() && #[trigger] order[j] as int == n)
}

/// The nodes of `order` but for the header, which stands first.
pub open spec fn interior(order: Seq<usize>) -> Set<int> {
    interior_upto(order, order.len() as int)
}

/// The edges of `g` that neither start nor end in `gone`.
pub open spec fn kept_edges(g: CfgGraph, gone: Set<int>) -> Set<int> {
    Set::new(
        |e: int| is_edge(g, e) && !gone.contains(edge_source(g, e)) && !gone.contains(edge_target(g, e)),
    )
}

/// The value of the sequence that replaces the header: the nodes of `order`
/// in order, the header included, each under the condition that guards it.
pub open spec fn folded_view(g: CfgGraph, order: Seq<usize>, successor: usize) -> AstView {
    AstView::Sequence(
        Seq::new(
            order.len(),
            |k: int| guarded(reach_at(g, order.push(successor), k), graph_nodes(g)[order[k] as int]@),
        ),
    )
}

/// `after` is `before` with the region `order` collapsed into its header:
/// the other nodes of the region are gone with all their edges, the header
/// holds the sequence of the region, one new edge leads from the header to
/// `successor`, and nothing else has changed. The new edge may take the index
/// of an edge that went with the region.
pub open spec fn collapsed(
    before: ControlFlowGraph,
    after: ControlFlowGraph,
    header: usize,
    successor: usize,
    order: Seq<usize>,
) -> bool {
    let g0 = before.graph;
    let g1 = after.graph;
    let gone = interior(order);
    &&& after.entry == before.entry
    &&& graph_nodes(g1).dom() == graph_nodes(g0).dom().difference(gone)
    &&& forall|n: int| #[trigger]
        is_node(g1, n) && n != header ==> graph_nodes(g1)[n] == graph_nodes(g0)[n]
    &&& graph_nodes(g1)[header as int]@ == folded_view(g0, order, successor)
    &&& exists|fresh: int|
        {
            &&& !kept_edges(g0, gone).contains(fresh)
            &&& #[trigger] is_edge(g1, fresh)
            &&& graph_edges(g1).dom() == kept_edges(g0, gone).insert(fresh)
            &&& edge_source(g1, fresh) == header
            &&& edge_target(g1, fresh) == successor
            &&& graph_edges(g1)[fresh].2@ == exit_label(
                reach_at(g0, order.push(successor), order.len() as int),
            )
            &&& forall|e: int| #[trigger]
                kept_edges(g0, gone).contains(e) ==> graph_edges(g1)[e] == graph_edges(g0)[e]
        }
}

/// The value of a sequence node is the sequence of the values of its parts.
pub proof fn lemma_sequence_view(parts: Vec<AstNode>)
    ensures
        ast_view(AstNode::Sequence(parts)) == AstView::Sequence(
            Seq::new(parts@.len(), |k: int| parts@[k]@),
        ),
{
    assert(ast_view(AstNode::Sequence(parts))->Sequence_0 =~= Seq::new(
        parts@.len(),
        |k: int| parts@[k]@,
    ));
}

impl ControlFlowGraph {
    /// `order` lists a region that can be collapsed into `header` with exit
    /// `successor`: it starts with the header, holds at least one more node,
    /// holds no node twice, holds neither the exit nor, past the header, the
    /// entry of the graph, and each of its nodes past the header, and the
    /// exit after them, is entered by an edge from an earlier node.
    pub open spec fn is_region_order(&self, header: usize, successor: usize, order: Seq<usize>) -> bool {
        &&& order.len() >= 2
        &&& order[0] == header
        &&& order.push(successor).no_duplicates()
        &&& is_node(self.graph, successor as int)
        &&& forall|k: int| 0 <= k < order.len() ==> is_node(self.graph, #[trigger] order[k] as int)
        &&& forall|k: int| 1 <= k < order.len() ==> #[trigger] order[k] != self.entry
        &&& entered_from_earlier(self.graph, order.push(successor))
    }

    /// Decides whether `order` lists a region that can be collapsed.
    pub fn check_region_order(&self, header: usize, successor: usize, order: &Vec<usize>) -> (r:
        bool)
        requires
            self.wf(),
        ensures
            r == self.is_region_order(header, successor, order@),
    {
        if order.len() < 2 || order[0] != header {
            return false;
        }
        if successor > u32::MAX as usize || !store_contains_node(&self.graph, successor) {
            return false;
        }
        let mut ext: Vec<usize> = Vec::new();
        let mut k: usize = 0;
        while k < order.len()
            invariant
                k <= order.len(),
                self.wf(),
                is_node(self.graph, successor as int),
                ext@ == order@.take(k as int),
                ext@.no_duplicates(),
                !ext@.contains(successor),
                forall|j: int| 0 <= j < k ==> is_node(self.graph, #[trigger] order@[j] as int),
                forall|j: int| 1 <= j < k ==> #[trigger] order@[j] != self.entry,
            decreases order.len() - k,
        {
            let n = order[k];
            let dup = crate::region::vec_contains(&ext, n);
            if dup || n == successor || n > u32::MAX as usize || !store_contains_node(
                &self.graph,
                n,
            ) || (k >= 1 && n == self.entry) {
                proof {
                    if self.is_region_order(header, successor, order@) {
                        let full = order@.push(successor);
                        assert(full[k as int] == n);
                        assert(full[order@.len() as int] == successor);
                        if dup {
                            let j = choose|j: int| 0 <= j < ext@.len() && ext@[j] == n;
                            assert(full[j] == n);
                        }
                        assert(is_node(self.graph, order@[k as int] as int));
                    }
                }
                return false;
            }
            proof {
                assert(order@.take(k as int + 1) =~= order@.take(k as int).push(n));
            }
            ext.push(n);
            k += 1;
        }
        assert(order@.take(order@.len() as int) =~= order@);
        ext.push(successor);
        let mut k: usize = 1;
        while k < ext.len()
            invariant
                1 <= k <= ext.len(),
                ext@ == order@.push(successor),
                ext@.no_duplicates(),
                forall|j: int| 0 <= j < ext@.len() ==> is_node(self.graph, #[trigger] ext@[j] as int),
                self.wf(),
                forall|j: int| 1 <= j < k ==> #[trigger] has_earlier_pred(self.graph, ext@, j),
            decreases ext.len() - k,
        {
            assert(is_node(self.graph, ext@[k as int] as int));
            if !entered_at(&self.graph, &ext, k) {
                return false;
            }
            k += 1;
        }
        true
    }

    /// Collapses the region `order` into `header`. The nodes of the region are
    /// taken out of the graph in the given order, each is put under its
    /// reaching condition, and the sequence of them becomes the payload of the
    /// header, which keeps its incoming edges and gets one edge to `successor`.
    pub fn collapse_region(&mut self, header: usize, successor: usize, order: &Vec<usize>)
        requires
            old(self).wf(),
            old(self).is_region_order(header, successor, order@),
        ensures
            final(self).wf(),
            collapsed(*old(self), *final(self), header, successor, order@),
            final(self).nodes().dom().subset_of(old(self).nodes().dom()),
            final(self).nodes().dom().len() < old(self).nodes().dom().len(),
            forall|k: int|
                0 <= k <= order@.len() ==> no_short_operands(
                    #[trigger] reach_at(old(self).graph, order@.push(successor), k),
                ),
    {
        let ghost before = *self;
        let ghost g0 = self.graph;
        let ghost full = order@.push(successor);
        let mut ext: Vec<usize> = Vec::new();
        let mut k: usize = 0;
        while k < order.len()
            invariant
                k <= order.len(),
                ext@ == order@.take(k as int),
            decreases order.len() - k,
        {
            proof {
                assert(order@.take(k as int + 1) =~= order@.take(k as int).push(order@[k as int]));
            }
            ext.push(order[k]);
            k += 1;
        }
        assert(order@.take(order@.len() as int) =~= order@);
        ext.push(successor);
        proof {
            assert forall|j: int| 0 <= j < ext@.len() implies #[trigger] ext@[j] <= u32::MAX by {
                if j < order@.len() {
                    assert(is_node(g0, order@[j] as int));
                }
            }
        }
        let mut conds = self.reaching_conditions(&ext);
        let ghost all_conds = conds@;
        assert(reaches_view(all_conds).len() == ext@.len());
        proof {
            assert forall|k: int| 0 <= k <= order@.len() implies no_short_operands(
                #[trigger] reach_at(g0, full, k),
            ) by {
                assert(reaches_view(all_conds)[k] == reach_at(g0, full, k));
            }
        }
        let exit = conds.pop().unwrap();
        let ghost conds0 = conds@;
        proof {
            assert(reaches_view(all_conds)[order@.len() as int] == reach_view(exit));
            assert forall|j: int| 0 <= j < conds0.len() implies reach_view(#[trigger] conds0[j])
                == reach_at(g0, full, j) by {
                assert(reaches_view(all_conds)[j] == reach_view(all_conds[j]));
            }
        }
        let label = match exit {
            Some(Condition::Simple(l)) => l,
            _ => SimpleCondition::trivial(),
        };
        assert(label@ == exit_label(reach_at(g0, full, order@.len() as int)));
        let mut parts: Vec<AstNode> = Vec::new();
        let mut at: usize = 0;
        for cond in it: conds
            invariant
                it.seq() == conds0,
                at == it.index(),
                conds0.len() == order@.len(),
                before.wf(),
                g0 == before.graph,
                before.is_region_order(header, successor, order@),
                full == order@.push(successor),
                self.entry == before.entry,
                forall|j: int|
                    0 <= j < conds0.len() ==> reach_view(#[trigger] conds0[j]) == reach_at(
                        g0,
                        full,
                        j,
                    ),
                parts@.len() == it.index(),
                forall|j: int|
                    0 <= j < it.index() ==> (#[trigger] parts@[j])@ == guarded(
                        reach_at(g0, full, j),
                        graph_nodes(g0)[order@[j] as int]@,
                    ),
                graph_nodes(self.graph).dom() == graph_nodes(g0).dom().difference(
                    interior_upto(order@, it.index() as int),
                ),
                forall|n: int| #[trigger]
                    is_node(self.graph, n) && n != header ==> graph_nodes(self.graph)[n]
                        == graph_nodes(g0)[n],
                it.index() == 0 ==> graph_nodes(self.graph)[header as int] == graph_nodes(
                    g0,
                )[header as int],
                graph_edges(self.graph).dom() == kept_edges(
                    g0,
                    interior_upto(order@, it.index() as int),
                ),
                forall|e: int| #[trigger]
                    is_edge(self.graph, e) ==> graph_edges(self.graph)[e] == graph_edges(g0)[e],
        {
            let ghost k = it.index() as int;
            let ghost g_pre = self.graph;
            let n = order[at];
            proof {
                assert(is_node(g0, n as int));
                assert(full[k] == n);
                assert(full[0] == header);
                if k >= 1 {
                    assert(n != header);
                    assert(!interior_upto(order@, k).contains(n as int)) by {
                        if interior_upto(order@, k).contains(n as int) {
                            let j = choose|j: int|
                                1 <= j < k && j < order@.len() && #[trigger] order@[j] as int == n as int;
                            assert(full[j] == order@[j]);
                        }
                    }
                    assert(graph_nodes(g0).dom().contains(n as int));
                    assert(is_node(g_pre, n as int));
                }
            }
            let payload = if at == 0 {
                store_replace_payload(&mut self.graph, header, AstNode::Sequence(Vec::new()))
            } else {
                store_remove_node(&mut self.graph, n).unwrap()
            };
            assert(payload == graph_nodes(g0)[n as int]);
            let guard = match cond {
                None => Condition::Simple(SimpleCondition::trivial()),
                Some(c) => c,
            };
            assert(guard@ == guard_of(reach_view(cond)));
            let part = AstNode::Cond(guard, Box::new(payload), None);
            proof {
                assert(part@ == guarded(reach_view(cond), payload@));
                assert(conds0[k] == cond);
                let gone0 = interior_upto(order@, k);
                let gone1 = interior_upto(order@, k + 1);
                if k == 0 {
                    assert(gone1 =~= gone0);
                    assert(graph_nodes(self.graph).dom() =~= graph_nodes(g_pre).dom());
                } else {
                    assert(gone1 =~= gone0.insert(n as int)) by {
                        assert forall|x: int| gone1.contains(x) <==> gone0.insert(
                            n as int,
                        ).contains(x) by {
                            if gone1.contains(x) {
                                let j = choose|j: int|
                                    1 <= j < k + 1 && j < order@.len() && #[trigger] order@[j] as int
                                        == x;
                                if j < k {
                                    assert(gone0.contains(x));
                                }
                            }
                            if gone0.contains(x) {
                                let j = choose|j: int|
                                    1 <= j < k && j < order@.len() && #[trigger] order@[j] as int == x;
                                assert(1 <= j < k + 1 && j < order@.len() && order@[j] as int == x);
                            }
                            if x == n as int {
                                assert(1 <= k < k + 1 && k < order@.len() && order@[k] as int == x);
                            }
                        }
                    }
                    assert(graph_nodes(self.graph).dom() =~= graph_nodes(g0).dom().difference(
                        gone1,
                    ));
                    assert(graph_edges(self.graph).dom() =~= kept_edges(g0, gone1)) by {
                        assert forall|e: int|
                            graph_edges(self.graph).dom().contains(e) <==> kept_edges(
                                g0,
                                gone1,
                            ).contains(e) by {
                            if is_edge(g_pre, e) {
                                assert(graph_edges(g_pre)[e] == graph_edges(g0)[e]);
                            }
                        }
                    }
                }
            }
            proof {
                assert forall|m: int| #[trigger] is_node(self.graph, m) && m != header implies graph_nodes(
                    self.graph,
                )[m] == graph_nodes(g0)[m] by {
                    assert(is_node(g_pre, m));
                }
                assert forall|e: int| #[trigger] is_edge(self.graph, e) implies graph_edges(
                    self.graph,
                )[e] == graph_edges(g0)[e] by {
                    assert(is_edge(g_pre, e));
                }
            }
            parts.push(part);
            assert(at < order.len());
            at += 1;
        }
        let ghost g_mid = self.graph;
        let folded = AstNode::Sequence(parts);
        proof {
            lemma_sequence_view(parts);
            assert(folded@ =~= folded_view(g0, order@, successor)) by {
                assert(Seq::new(parts@.len(), |k: int| parts@[k]@) =~= Seq::new(
                    order@.len(),
                    |k: int| guarded(reach_at(g0, full, k), graph_nodes(g0)[order@[k] as int]@),
                ));
            }
            assert(!interior(order@).contains(header as int)) by {
                if interior(order@).contains(header as int) {
                    let j = choose|j: int|
                        1 <= j < order@.len() && j < order@.len() && #[trigger] order@[j] as int
                            == header as int;
                    assert(full[j] == order@[j]);
                    assert(full[0] == header);
                }
            }
            assert(!interior(order@).contains(successor as int)) by {
                if interior(order@).contains(successor as int) {
                    let j = choose|j: int|
                        1 <= j < order@.len() && j < order@.len() && #[trigger] order@[j] as int
                            == successor as int;
                    assert(full[j] == order@[j]);
                    assert(full[order@.len() as int] == successor);
                }
            }
            assert(is_node(g0, header as int)) by {
                assert(is_node(g0, order@[0] as int));
            }
            assert(is_node(g_mid, header as int));
            assert(is_node(g_mid, successor as int));
        }
        store_replace_payload(&mut self.graph, header, folded);
        let ghost g_set = self.graph;
        proof {
            lemma_kept_edges_are_fewer(g0, order@, successor);
            assert(graph_edges(g_set).dom() == kept_edges(g0, interior(order@)));
        }
        let fresh = store_add_edge(&mut self.graph, header, successor, label);
        proof {
            let g1 = self.graph;
            let gone = interior(order@);
            assert(graph_nodes(g1).dom() =~= graph_nodes(g0).dom().difference(gone));
            assert(!kept_edges(g0, gone).contains(fresh as int));
            assert(is_edge(g1, fresh as int));
            assert(store_wf(g1)) by {
                let t1 = topology_of(g1);
                let t0 = topology_of(g0);
                assert(t1.nodes.subset_of(t0.nodes));
                vstd::set_lib::lemma_len_subset(t1.nodes, t0.nodes);
                assert(t1.arcs.dom() =~= kept_edges(g0, gone).insert(fresh as int));
                assert(kept_edges(g0, gone).subset_of(t0.arcs.dom()));
                vstd::set_lib::lemma_len_subset(kept_edges(g0, gone), t0.arcs.dom());
                assert forall|e: int| #[trigger] t1.arcs.dom().contains(e) implies t1.nodes.contains(
                    t1.arcs[e].0,
                ) && t1.nodes.contains(t1.arcs[e].1) by {
                    if e != fresh as int {
                        assert(kept_edges(g0, gone).contains(e));
                        assert(is_edge(g_mid, e));
                        assert(t0.arcs.dom().contains(e));
                    }
                }
                assert forall|n: int| #[trigger] is_node(g1, n) implies 0 <= n < u32::MAX by {
                    assert(is_node(g0, n));
                }
                assert forall|e: int| #[trigger] is_edge(g1, e) implies 0 <= e < u32::MAX by {
                    if e != fresh as int {
                        assert(is_edge(g0, e));
                    }
                }
            }
            assert(is_node(g1, self.entry as int)) by {
                if gone.contains(self.entry as int) {
                    let j = choose|j: int|
                        1 <= j < order@.len() && j < order@.len() && #[trigger] order@[j] as int
                            == self.entry as int;
                    assert(order@[j] != before.entry);
                }
            }
            assert forall|e: int| #[trigger] kept_edges(g0, gone).contains(e) implies graph_edges(
                g1,
            )[e] == graph_edges(g0)[e] by {
                assert(is_edge(g_mid, e));
            }
            assert forall|n: int| #[trigger] is_node(g1, n) && n != header implies graph_nodes(g1)[n]
                == graph_nodes(g0)[n] by {
                assert(is_node(g_set, n));
                assert(is_node(g_mid, n));
            }
            assert(graph_nodes(g1)[header as int]@ == folded_view(g0, order@, successor));
            assert(graph_edges(g1).dom() =~= kept_edges(g0, gone).insert(fresh as int));
            assert(edge_source(g1, fresh as int) == header);
            assert(edge_target(g1, fresh as int) == successor);
            assert(graph_edges(g1)[fresh as int].2@ == exit_label(
                reach_at(g0, order@.push(successor), order@.len() as int),
            ));
            assert(collapsed(before, *self, header, successor, order@));
            lemma_collapse_shrinks(before, *self, header, successor, order@);
        }
    }
}

/// A collapse takes at least one node out of the graph, adds none, and leaves
/// at least the header and the exit.
pub proof fn lemma_collapse_shrinks(
    before: ControlFlowGraph,
    after: ControlFlowGraph,
    header: usize,
    successor: usize,
    order: Seq<usize>,
)
    requires
        before.wf(),
        before.is_region_order(header, successor, order),
        collapsed(before, after, header, successor, order),
    ensures
        after.nodes().dom().subset_of(before.nodes().dom()),
        after.nodes().dom().finite(),
        after.nodes().dom().len() < before.nodes().dom().len(),
        after.nodes().dom().len() >= 2,
{
    let n0 = before.nodes().dom();
    let n1 = after.nodes().dom();
    let full = order.push(successor);
    let gone = interior(order);
    assert(is_node(before.graph, order[1] as int));
    assert(gone.contains(order[1] as int));
    assert(n1.subset_of(n0.remove(order[1] as int)));
    vstd::set_lib::lemma_len_subset(n1, n0.remove(order[1] as int));
    assert(is_node(before.graph, order[0] as int));
    assert(full[0] == header && full[order.len() as int] == successor);
    assert(!gone.contains(header as int)) by {
        if gone.contains(header as int) {
            let j = choose|j: int|
                1 <= j < order.len() && j < order.len() && #[trigger] order[j] as int == header as int;
            assert(full[j] == order[j]);
        }
    }
    assert(!gone.contains(successor as int)) by {
        if gone.contains(successor as int) {
            let j = choose|j: int|
                1 <= j < order.len() && j < order.len() && #[trigger] order[j] as int
                    == successor as int;
            assert(full[j] == order[j]);
        }
    }
    let two = set![header as int, successor as int];
    assert(two.subset_of(n1));
    vstd::set_lib::lemma_len_subset(two, n1);
    assert(two.len() == 2) by {
        assert(two =~= Set::<int>::empty().insert(header as int).insert(successor as int));
    }
}

/// `new` is `old`, or a sequence of two or more parts whose first part holds,
/// under the predicate that always holds, a tree that has grown from `old`:
/// what a payload becomes when its node heads one collapse after another.
pub open spec fn grown_from(new: AstView, old: AstView) -> bool
    decreases new,
{
    new == old || match new {
        AstView::Sequence(parts) => parts.len() >= 2 && match parts[0] {
            AstView::Cond(c, body, alternative) => c == ConditionView::Simple(Seq::empty())
                && alternative is None && grown_from(*body, old),
            _ => false,
        },
        _ => false,
    }
}

/// `new` is a sequence of two or more parts whose first part holds, under the
/// predicate that always holds, a tree that has grown from `old`.
pub open spec fn strictly_grown(new: AstView, old: AstView) -> bool {
    match new {
        AstView::Sequence(parts) => parts.len() >= 2 && match parts[0] {
            AstView::Cond(c, body, alternative) => c == ConditionView::Simple(Seq::empty())
                && alternative is None && grown_from(*body, old),
            _ => false,
        },
        _ => false,
    }
}

/// `new` has come out of `old` by collapses. The entry is the same and no
/// node is new. The payload of every node has grown from the payload it had.
/// Every edge of `old` between two nodes that are still there is still there,
/// unchanged. And every edge of `new` is such an edge of `old` or starts at a
/// node that headed a collapse.
pub open spec fn restructured(old: ControlFlowGraph, new: ControlFlowGraph) -> bool {
    &&& new.entry == old.entry
    &&& graph_nodes(new.graph).dom().subset_of(graph_nodes(old.graph).dom())
    &&& forall|n: int| #[trigger]
        is_node(new.graph, n) ==> grown_from(graph_nodes(new.graph)[n]@, graph_nodes(old.graph)[n]@)
    &&& forall|e: int| #[trigger]
        is_edge(old.graph, e) && is_node(new.graph, edge_source(old.graph, e)) && is_node(
            new.graph,
            edge_target(old.graph, e),
        ) ==> is_edge(new.graph, e) && graph_edges(new.graph)[e] == graph_edges(old.graph)[e]
    &&& forall|e: int| #[trigger]
        is_edge(new.graph, e) ==> (is_edge(old.graph, e) && graph_edges(new.graph)[e]
            == graph_edges(old.graph)[e]) || strictly_grown(
            graph_nodes(new.graph)[edge_source(new.graph, e)]@,
            graph_nodes(old.graph)[edge_source(new.graph, e)]@,
        )
}

/// One more collapse keeps a graph restructured.
pub proof fn lemma_restructured_step(
    first: ControlFlowGraph,
    before: ControlFlowGraph,
    after: ControlFlowGraph,
    header: usize,
    successor: usize,
    order: Seq<usize>,
)
    requires
        restructured(first, before),
        before.wf(),
        before.is_region_order(header, successor, order),
        collapsed(before, after, header, successor, order),
    ensures
        restructured(first, after),
{
    let ga = first.graph;
    let gb = before.graph;
    let gc = after.graph;
    let gone = interior(order);
    let h = header as int;
    let fresh = choose|fresh: int|
        {
            &&& !kept_edges(gb, gone).contains(fresh)
            &&& #[trigger] is_edge(gc, fresh)
            &&& graph_edges(gc).dom() == kept_edges(gb, gone).insert(fresh)
            &&& edge_source(gc, fresh) == header
            &&& edge_target(gc, fresh) == successor
            &&& forall|e: int| #[trigger]
                kept_edges(gb, gone).contains(e) ==> graph_edges(gc)[e] == graph_edges(gb)[e]
        };
    assert(is_node(gb, order[0] as int));
    assert(is_node(ga, h));
    let folded = graph_nodes(gc)[h]@;
    assert(strictly_grown(folded, graph_nodes(ga)[h]@)) by {
        let parts = folded->Sequence_0;
        assert(parts.len() == order.len());
        assert(parts[0] == guarded(
            reach_at(gb, order.push(successor), 0),
            graph_nodes(gb)[order[0] as int]@,
        ));
        assert(grown_from(graph_nodes(gb)[h]@, graph_nodes(ga)[h]@));
    }
    assert forall|n: int| #[trigger] is_node(gc, n) implies grown_from(
        graph_nodes(gc)[n]@,
        graph_nodes(ga)[n]@,
    ) by {
        assert(is_node(gb, n));
        if n != h {
            assert(graph_nodes(gc)[n] == graph_nodes(gb)[n]);
        }
    }
    assert forall|e: int| #[trigger]
        is_edge(ga, e) && is_node(gc, edge_source(ga, e)) && is_node(
            gc,
            edge_target(ga, e),
        ) implies is_edge(gc, e) && graph_edges(gc)[e] == graph_edges(ga)[e] by {
        assert(is_node(gb, edge_source(ga, e)) && is_node(gb, edge_target(ga, e)));
        assert(is_edge(gb, e) && graph_edges(gb)[e] == graph_edges(ga)[e]);
        assert(kept_edges(gb, gone).contains(e));
        assert(graph_edges(gc).dom().contains(e));
    }
    assert forall|e: int| #[trigger] is_edge(gc, e) implies (is_edge(ga, e) && graph_edges(gc)[e]
        == graph_edges(ga)[e]) || strictly_grown(
        graph_nodes(gc)[edge_source(gc, e)]@,
        graph_nodes(ga)[edge_source(gc, e)]@,
    ) by {
        assert(graph_edges(gc).dom().contains(e));
        if e != fresh {
            assert(kept_edges(gb, gone).contains(e));
            assert(is_edge(gb, e) && graph_edges(gc)[e] == graph_edges(gb)[e]);
            let src = edge_source(gb, e);
            assert(topology_of(gb).arcs.dom().contains(e));
            assert(is_node(gb, src));
            assert(is_node(gc, src));
            if src != h {
                assert(graph_nodes(gc)[src] == graph_nodes(gb)[src]);
            }
        }
    }
}

/// Once a region of two or more nodes is taken out, the store has room for
/// one more edge.
pub proof fn lemma_kept_edges_are_fewer(g: CfgGraph, order: Seq<usize>, successor: usize)
    requires
        store_wf(g),
        order.len() >= 2,
        order.push(successor).no_duplicates(),
        entered_from_earlier(g, order.push(successor)),
    ensures
        kept_edges(g, interior(order)).finite(),
        kept_edges(g, interior(order)).len() < u32::MAX,
{
    let full = order.push(successor);
    let gone = interior(order);
    let kept = kept_edges(g, gone);
    let all = graph_edges(g).dom();
    assert(has_earlier_pred(g, full, 1));
    let e = choose|e: int| #[trigger]
        is_edge(g, e) && edge_target(g, e) == full[1] as int && 0 <= position_in(
            full,
            edge_source(g, e),
        ) < 1;
    assert(full[1] == order[1]);
    assert(gone.contains(order[1] as int));
    assert(topology_of(g).arcs.dom() =~= all);
    assert(kept.subset_of(all.remove(e)));
    vstd::set_lib::lemma_len_subset(kept, all.remove(e));
    let range = vstd::set_lib::set_int_range(0, u32::MAX as int);
    vstd::set_lib::lemma_int_range(0, u32::MAX as int);
    assert(all.subset_of(range)) by {
        assert forall|x: int| all.contains(x) implies range.contains(x) by {
            assert(is_edge(g, x));
        }
    }
    vstd::set_lib::lemma_len_subset(all, range);
}

} // verus!
