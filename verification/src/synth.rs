//! Condition synthesis: the condition under which control, having entered a
//! region at its header, reaches each node of the region.

use crate::ast::{Condition, ConditionView};
use crate::cfg::ControlFlowGraph;
use crate::condition::{
    and_edge, and_edge_view, no_short_operands, or_reach, or_reach_view, reach_view, reaches_view,
};
use crate::graph::{
    edge_source,
    edge_target,
    graph_edges,
    in_edge_order,
    is_edge,
    store_edge_label,
    store_in_edges,
    CfgGraph,
};
use vstd::prelude::*;

verus! {

/// The position of node `n` in `ord`, or -1 where it does not occur.
pub open spec fn position_in(ord: Seq<usize>, n: int) -> int {
    if 0 <= n <= usize::MAX && ord.contains(n as usize) {
        ord.index_of(n as usize)
    } else {
        -1
    }
}

/// The ways in which control reaches the node at position `k` of `ord`
/// through the first `m` of the edges that end at it: one for each such edge
/// that starts at an earlier position, namely the reaching condition of that
/// position narrowed by the predicate of the edge.
pub open spec fn disjuncts(g: CfgGraph, ord: Seq<usize>, k: int, m: int) -> Seq<
    Option<ConditionView>,
>
    decreases k, 0int, m,
{
    if m <= 0 || k <= 0 {
        Seq::empty()
    } else {
        let rest = disjuncts(g, ord, k, m - 1);
        let edge = in_edge_order(g, ord[k] as int)[m - 1];
        let i = position_in(ord, edge.1);
        if 0 <= i < k {
            rest.push(and_edge_view(reach_at(g, ord, i), graph_edges(g)[edge.0].2@))
        } else {
            rest
        }
    }
}

/// All the ways in which control reaches the node at position `k` of `ord`
/// from earlier positions.
pub open spec fn all_disjuncts(g: CfgGraph, ord: Seq<usize>, k: int) -> Seq<Option<ConditionView>> {
    disjuncts(g, ord, k, in_edge_order(g, ord[k] as int).len() as int)
}

/// The reaching condition of the node at position `k` of `ord`, where `ord`
/// starts with the header of the region: unconditional for the header, and
/// for any other node the disjunction over the edges that come in from
/// earlier positions.
pub open spec fn reach_at(g: CfgGraph, ord: Seq<usize>, k: int) -> Option<ConditionView>
    decreases k, 1int, 0int,
{
    if k <= 0 {
        None
    } else {
        or_reach_view(disjuncts(g, ord, k, in_edge_order(g, ord[k] as int).len() as int))
    }
}

/// Some edge leads to the node at position `k` of `ord` from a node at an
/// earlier position.
pub open spec fn has_earlier_pred(g: CfgGraph, ord: Seq<usize>, k: int) -> bool {
    exists|e: int| #[trigger]
        is_edge(g, e) && edge_target(g, e) == ord[k] as int && 0 <= position_in(
            ord,
            edge_source(g, e),
        ) < k
}

/// Every position but the first is entered by an edge from an earlier one.
pub open spec fn entered_from_earlier(g: CfgGraph, ord: Seq<usize>) -> bool {
    forall|k: int| 1 <= k < ord.len() ==> #[trigger] has_earlier_pred(g, ord, k)
}

/// The node at position `k` of `order` is entered by an edge from an earlier
/// position.
pub fn entered_at(g: &CfgGraph, order: &Vec<usize>, k: usize) -> (r: bool)
    requires
        order@.no_duplicates(),
        k < order@.len(),
        order@[k as int] <= u32::MAX,
    ensures
        r == has_earlier_pred(*g, order@, k as int),
{
    let ins = store_in_edges(g, order[k]);
    let mut m: usize = 0;
    while m < ins.len()
        invariant
            m <= ins.len(),
            order@.no_duplicates(),
            k < order@.len(),
            forall|i: int|
                0 <= i < ins@.len() ==> {
                    &&& is_edge(*g, (#[trigger] ins@[i]).0 as int)
                    &&& edge_target(*g, ins@[i].0 as int) == order@[k as int] as int
                    &&& edge_source(*g, ins@[i].0 as int) == ins@[i].1 as int
                },
            forall|i: int|
                0 <= i < m ==> !(0 <= position_in(order@, (#[trigger] ins@[i]).1 as int) < k),
        decreases ins.len() - m,
    {
        let s = ins[m].1;
        let found = position(order, s);
        proof {
            if let Some(i) = found {
                assert(order@.contains(s));
                assert(order@.index_of(s) == i as int);
            }
        }
        if let Some(i) = found {
            if i < k {
                assert(is_edge(*g, ins@[m as int].0 as int));
                return true;
            }
        }
        m += 1;
    }
    proof {
        if has_earlier_pred(*g, order@, k as int) {
            let e = choose|e: int| #[trigger]
                is_edge(*g, e) && edge_target(*g, e) == order@[k as int] as int && 0 <= position_in(
                    order@,
                    edge_source(*g, e),
                ) < k;
            let i = choose|i: int| 0 <= i < ins@.len() && (#[trigger] ins@[i]).0 as int == e;
            assert(edge_source(*g, e) == ins@[i].1 as int);
        }
    }
    false
}

/// The position at which `n` occurs first in `order`.
pub fn position(order: &Vec<usize>, n: usize) -> (r: Option<usize>)
    ensures
        match r {
            Some(i) => i < order@.len() && order@[i as int] == n && forall|j: int|
                0 <= j < i ==> order@[j] != n,
            None => !order@.contains(n),
        },
{
    let mut i: usize = 0;
    while i < order.len()
        invariant
            i <= order.len(),
            forall|j: int| 0 <= j < i ==> order@[j] != n,
        decreases order.len() - i,
    {
        if order[i] == n {
            return Some(i);
        }
        i += 1;
    }
    None
}

impl ControlFlowGraph {
    /// The ways in which control reaches the node at position `k` of `order`
    /// from earlier positions, given the reaching conditions `conds` of those.
    pub fn disjuncts_at(&self, order: &Vec<usize>, conds: &Vec<Option<Condition>>, k: usize) -> (r:
        Vec<Option<Condition>>)
        requires
            order@.no_duplicates(),
            1 <= k < order@.len(),
            order@[k as int] <= u32::MAX,
            conds@.len() == k,
            forall|j: int|
                0 <= j < k ==> reach_view(#[trigger] conds@[j]) == reach_at(self.graph, order@, j),
            has_earlier_pred(self.graph, order@, k as int),
        ensures
            reaches_view(r@) == all_disjuncts(self.graph, order@, k as int),
            r@.len() >= 1,
            (forall|j: int| 0 <= j < k ==> no_short_operands(reach_view(#[trigger] conds@[j])))
                ==> forall|i: int|
                0 <= i < r@.len() ==> no_short_operands(#[trigger] reaches_view(r@)[i]),
    {
        let ins = store_in_edges(&self.graph, order[k]);
        let ghost named = in_edge_order(self.graph, order@[k as int] as int);
        let mut alts: Vec<Option<Condition>> = Vec::new();
        let mut m: usize = 0;
        assert(reaches_view(alts@) =~= disjuncts(self.graph, order@, k as int, 0));
        while m < ins.len()
            invariant
                m <= ins.len(),
                order@.no_duplicates(),
                1 <= k < order@.len(),
                conds@.len() == k,
                forall|j: int|
                    0 <= j < k ==> reach_view(#[trigger] conds@[j]) == reach_at(
                        self.graph,
                        order@,
                        j,
                    ),
                named == in_edge_order(self.graph, order@[k as int] as int),
                ins@.map_values(|p: (usize, usize)| (p.0 as int, p.1 as int)) == named,
                forall|i: int|
                    0 <= i < ins@.len() ==> {
                        &&& is_edge(self.graph, (#[trigger] ins@[i]).0 as int)
                        &&& edge_target(self.graph, ins@[i].0 as int) == order@[k as int] as int
                        &&& edge_source(self.graph, ins@[i].0 as int) == ins@[i].1 as int
                    },
                forall|i: int|
                    0 <= i < m && 0 <= position_in(order@, (#[trigger] ins@[i]).1 as int) < k
                        ==> alts@.len() >= 1,
                reaches_view(alts@) == disjuncts(self.graph, order@, k as int, m as int),
                (forall|j: int| 0 <= j < k ==> no_short_operands(reach_view(#[trigger] conds@[j])))
                    ==> forall|i: int|
                    0 <= i < alts@.len() ==> no_short_operands(#[trigger] reaches_view(alts@)[i]),
            decreases ins.len() - m,
        {
            let e = ins[m].0;
            let s = ins[m].1;
            let ghost old_alts = alts@;
            let found = position(order, s);
            proof {
                assert(named[m as int] == (e as int, s as int));
                assert(named.len() == ins@.len());
                match found {
                    Some(i) => {
                        assert(order@.contains(s));
                        assert(order@.index_of(s) == i as int);
                    },
                    None => {},
                }
            }
            let mut earlier: Option<usize> = None;
            if let Some(i) = found {
                if i < k {
                    earlier = Some(i);
                }
            }
            if let Some(i) = earlier {
                let label = store_edge_label(&self.graph, e);
                let alt = and_edge(&conds[i], label);
                alts.push(alt);
                proof {
                    assert(reaches_view(alts@) =~= reaches_view(old_alts).push(reach_view(alt)));
                    if forall|j: int|
                        0 <= j < k ==> no_short_operands(reach_view(#[trigger] conds@[j])) {
                        assert(no_short_operands(reach_view(conds@[i as int])));
                        assert forall|x: int| 0 <= x < alts@.len() implies no_short_operands(
                            #[trigger] reaches_view(alts@)[x],
                        ) by {
                            if x < old_alts.len() {
                                assert(reaches_view(old_alts)[x] == reaches_view(alts@)[x]);
                            }
                        }
                    }
                }
            }
            m += 1;
        }
        proof {
            assert(named.len() == ins@.len());
            let g = self.graph;
            let e = choose|e: int| #[trigger]
                is_edge(g, e) && edge_target(g, e) == order@[k as int] as int && 0 <= position_in(
                    order@,
                    edge_source(g, e),
                ) < k;
            let i = choose|i: int| 0 <= i < ins@.len() && (#[trigger] ins@[i]).0 as int == e;
            assert(edge_source(g, e) == ins@[i].1 as int);
        }
        alts
    }

    /// The reaching condition of every node of `order`, for a region whose
    /// header stands first in `order`.
    pub fn reaching_conditions(&self, order: &Vec<usize>) -> (r: Vec<Option<Condition>>)
        requires
            order@.no_duplicates(),
            forall|k: int| 0 <= k < order@.len() ==> #[trigger] order@[k] <= u32::MAX,
            entered_from_earlier(self.graph, order@),
        ensures
            reaches_view(r@) == Seq::new(
                order@.len(),
                |k: int| reach_at(self.graph, order@, k),
            ),
            forall|k: int| 0 <= k < r@.len() ==> no_short_operands(#[trigger] reaches_view(r@)[k]),
    {
        let mut conds: Vec<Option<Condition>> = Vec::new();
        let mut k: usize = 0;
        while k < order.len()
            invariant
                k <= order.len(),
                order@.no_duplicates(),
                forall|j: int| 0 <= j < order@.len() ==> #[trigger] order@[j] <= u32::MAX,
                entered_from_earlier(self.graph, order@),
                conds@.len() == k,
                forall|j: int|
                    0 <= j < k ==> reach_view(#[trigger] conds@[j]) == reach_at(
                        self.graph,
                        order@,
                        j,
                    ),
                forall|j: int| 0 <= j < k ==> no_short_operands(reach_view(#[trigger] conds@[j])),
            decreases order.len() - k,
        {
            if k == 0 {
                conds.push(None);
            } else {
                assert(has_earlier_pred(self.graph, order@, k as int));
                let alts = self.disjuncts_at(order, &conds, k);
                let c = or_reach(alts);
                conds.push(c);
            }
            k += 1;
        }
        assert(reaches_view(conds@) =~= Seq::new(
            order@.len(),
            |k: int| reach_at(self.graph, order@, k),
        ));
        conds
    }
}

} // verus!
