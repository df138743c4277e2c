//! The driver: passes over the post-order of the graph that collapse every
//! region found, until a single node is left or a pass collapses nothing.

use crate::ast::AstNode;
use crate::cfg::ControlFlowGraph;
use crate::collapse::{
    collapsed, lemma_collapse_shrinks, lemma_restructured_step, restructured,
};
use crate::condition::no_short_operands;
use crate::dfs::is_dfs_result;
use crate::error::StructureError;
use crate::graph::{
    bounded_post_order,
    is_node,
    store_bounded_post_order,
    store_node_count,
    store_remove_node,
};
use crate::synth::reach_at;
use crate::theory::{dominated_region, lemma_collapse_keeps_reachability};
use crate::topology::lemma_path_stays_in_nodes;
use vstd::prelude::*;
use vstd::std_specs::hash::group_hash_axioms;

verus! {

broadcast use group_hash_axioms;

/// The elements of `v` from last to first.
pub fn reversed(v: &Vec<usize>) -> (r: Vec<usize>)
    ensures
        r@ == v@.reverse(),
{
    let mut out: Vec<usize> = Vec::new();
    let mut i: usize = v.len();
    while i > 0
        invariant
            i <= v.len(),
            out@.len() == v.len() - i,
            forall|k: int| 0 <= k < out@.len() ==> out@[k] == v@[v.len() - 1 - k],
        decreases i,
    {
        i -= 1;
        out.push(v[i]);
    }
    assert(out@ =~= v@.reverse());
    out
}

impl ControlFlowGraph {
    /// Every node of the graph can be reached from the entry.
    pub open spec fn all_reachable(&self) -> bool {
        forall|n: int| #[trigger]
            is_node(self.graph, n) ==> self.topology().reachable(self.entry as int, n)
    }

    /// The order in which the region between `header` and `successor` is
    /// folded: the post-order of a depth-first walk from `header` that does
    /// not enter `successor`, from last to first.
    pub open spec fn region_order(&self, header: usize, successor: usize) -> Seq<usize> {
        bounded_post_order(self.graph, header as int, successor as int).map_values(
            |x: int| x as usize,
        ).reverse()
    }

    /// `header` and `successor` are nodes, and the walk from `header` that
    /// stops at `successor` yields a region that can be collapsed.
    pub open spec fn can_collapse(&self, header: usize, successor: usize) -> bool {
        &&& is_node(self.graph, header as int)
        &&& is_node(self.graph, successor as int)
        &&& self.is_region_order(header, successor, self.region_order(header, successor))
    }

    /// The nodes between `header` and `successor` in the order in which they
    /// are folded.
    pub fn region_walk(&self, header: usize, successor: usize) -> (r: Vec<usize>)
        requires
            is_node(self.graph, header as int),
            is_node(self.graph, successor as int),
        ensures
            r@ == self.region_order(header, successor),
    {
        let region_postorder = store_bounded_post_order(&self.graph, header, successor);
        proof {
            let named = bounded_post_order(self.graph, header as int, successor as int);
            assert(named.map_values(|x: int| x as usize) =~= region_postorder@);
        }
        reversed(&region_postorder)
    }

    /// Convert the acyclic, single entry, single exit region bound by
    /// `header` and `successor` into one node: the sequence of its nodes in
    /// reverse post-order, each wrapped in a conditional under its reaching
    /// condition, in which no conjunction or disjunction has fewer than two
    /// operands. Returns whether the region was collapsed; where it was not,
    /// the graph is as before.
    pub fn structure_acyclic_sese_region(&mut self, header: usize, successor: usize) -> (r: bool)
        requires
            old(self).wf(),
        ensures
            final(self).wf(),
            r == old(self).can_collapse(header, successor),
            r ==> collapsed(
                *old(self),
                *final(self),
                header,
                successor,
                old(self).region_order(header, successor),
            ),
            r ==> forall|k: int|
                0 <= k <= old(self).region_order(header, successor).len() ==> no_short_operands(
                    #[trigger] reach_at(
                        old(self).graph,
                        old(self).region_order(header, successor).push(successor),
                        k,
                    ),
                ),
            !r ==> *final(self) == *old(self),
    {
        if !self.contains_node(header) || !self.contains_node(successor) {
            return false;
        }
        let order = self.region_walk(header, successor);
        if !self.check_region_order(header, successor, &order) {
            return false;
        }
        self.collapse_region(header, successor, &order);
        true
    }

    /// Node `n` heads a region that a pass collapses: it dominates more than
    /// one node, the dominated nodes have a single exit, and the walk from
    /// `n` that stops at the exit yields as many nodes as `n` dominates, in
    /// an order that can be collapsed.
    pub open spec fn heads_collapsible_region(&self, n: usize) -> bool {
        exists|s: usize|
            {
                &&& self.region_of(n as int).len() > 1
                &&& self.region_exits(n as int) == set![s as int]
                &&& (#[trigger] self.region_order(n, s)).len() == self.region_of(n as int).len()
                &&& self.can_collapse(n, s)
            }
    }

    /// A pass over the post-order `po` with the back edges `be` has nothing
    /// to do: every node is a loop header or heads no region that can be
    /// collapsed.
    pub open spec fn nothing_to_collapse(&self, be: Map<usize, Vec<usize>>, po: Seq<usize>) -> bool {
        forall|i: int|
            0 <= i < po.len() ==> be.contains_key(#[trigger] po[i]) || !self.heads_collapsible_region(
                po[i],
            )
    }

    /// Collapses the region that `n` heads, if it heads one that can be
    /// collapsed. Returns whether it did; where it did not, the graph is as
    /// before.
    pub fn collapse_headed_by(&mut self, n: usize) -> (r: bool)
        requires
            old(self).wf(),
        ensures
            final(self).wf(),
            r == old(self).heads_collapsible_region(n),
            r ==> exists|s: usize|
                old(self).is_region_order(n, s, old(self).region_order(n, s)) && #[trigger] collapsed(
                    *old(self),
                    *final(self),
                    n,
                    s,
                    old(self).region_order(n, s),
                ) && (old(self).all_reachable() ==> dominated_region(
                    *old(self),
                    n,
                    s,
                    old(self).region_order(n, s),
                )),
            !r ==> *final(self) == *old(self),
            old(self).all_reachable() ==> final(self).all_reachable(),
            restructured(*old(self), *final(self)),
    {
        if !self.contains_node(n) {
            return false;
        }
        match self.sese_region(n) {
            None => {
                proof {
                    if self.heads_collapsible_region(n) {
                        let s = choose|s: usize|
                            {
                                &&& self.region_of(n as int).len() > 1
                                &&& self.region_exits(n as int) == set![s as int]
                                &&& (#[trigger] self.region_order(n, s)).len() == self.region_of(
                                    n as int,
                                ).len()
                                &&& self.can_collapse(n, s)
                            };
                        assert(self.region_exits(n as int) == set![s as int]);
                    }
                }
                false
            },
            Some((succ, size)) => {
                let order = self.region_walk(n, succ);
                if order.len() == size && self.check_region_order(n, succ, &order) {
                    let ghost pre = *self;
                    self.collapse_region(n, succ, &order);
                    proof {
                        assert(pre.can_collapse(n, succ));
                        assert(pre.region_order(n, succ).len() == pre.region_of(n as int).len());
                        assert(collapsed(pre, *self, n, succ, pre.region_order(n, succ)));
                        if pre.all_reachable() {
                            assert(dominated_region(pre, n, succ, pre.region_order(n, succ)));
                            lemma_collapse_keeps_reachability(pre, *self, n, succ, order@);
                        }
                        lemma_restructured_step(pre, pre, *self, n, succ, order@);
                    }
                    true
                } else {
                    proof {
                        if self.heads_collapsible_region(n) {
                            let s = choose|s: usize|
                                {
                                    &&& self.region_of(n as int).len() > 1
                                    &&& self.region_exits(n as int) == set![s as int]
                                    &&& (#[trigger] self.region_order(n, s)).len()
                                        == self.region_of(n as int).len()
                                    &&& self.can_collapse(n, s)
                                };
                            assert(set![s as int].contains(s as int));
                            assert(set![succ as int].contains(s as int));
                            assert(s == succ);
                        }
                    }
                    false
                }
            },
        }
    }

    /// One pass: walks the post-order of the graph and collapses the region
    /// of every node that is no loop header and heads a region that can be
    /// collapsed. Returns whether anything was collapsed. What is left has
    /// come out of the graph by collapses: payloads have only grown, and the
    /// edges between the nodes that are left are unchanged. Where nothing was
    /// collapsed, the graph is as before, and some depth-first walk of it
    /// shows every node to be a loop header or to head no such region.
    pub fn structure_pass(&mut self) -> (r: bool)
        requires
            old(self).wf(),
        ensures
            final(self).wf(),
            final(self).entry == old(self).entry,
            final(self).nodes().dom().subset_of(old(self).nodes().dom()),
            r == (final(self).nodes().dom().len() < old(self).nodes().dom().len()),
            r ==> final(self).nodes().dom().len() >= 2,
            !r ==> *final(self) == *old(self),
            old(self).all_reachable() ==> final(self).all_reachable(),
            restructured(*old(self), *final(self)),
            !r ==> exists|be: Map<usize, Vec<usize>>, po: Seq<usize>|
                #[trigger] is_dfs_result(old(self).graph, old(self).entry as int, be, po) && old(
                    self,
                ).nothing_to_collapse(be, po),
    {
        let ghost start = *self;
        let (backedges, podfs_trace) = self.do_dfs();
        let mut progress = false;
        let mut i: usize = 0;
        while i < podfs_trace.len()
            invariant
                i <= podfs_trace.len(),
                start.wf(),
                self.wf(),
                self.entry == start.entry,
                self.nodes().dom().subset_of(start.nodes().dom()),
                progress == (self.nodes().dom().len() < start.nodes().dom().len()),
                progress ==> self.nodes().dom().len() >= 2,
                !progress ==> *self == start,
                start.all_reachable() ==> self.all_reachable(),
                restructured(start, *self),
                !progress ==> forall|j: int|
                    0 <= j < i ==> backedges@.contains_key(#[trigger] podfs_trace@[j])
                        || !start.heads_collapsible_region(podfs_trace@[j]),
            decreases podfs_trace.len() - i,
        {
            let n = podfs_trace[i];
            let ghost pre = *self;
            if backedges.contains_key(&n) {
                // a loop header: no rule collapses it
            } else {
                // acyclic
                if self.collapse_headed_by(n) {
                    proof {
                        let s = choose|s: usize|
                            pre.is_region_order(n, s, pre.region_order(n, s)) && #[trigger] collapsed(
                                pre,
                                *self,
                                n,
                                s,
                                pre.region_order(n, s),
                            ) && (pre.all_reachable() ==> dominated_region(
                                pre,
                                n,
                                s,
                                pre.region_order(n, s),
                            ));
                        lemma_collapse_shrinks(pre, *self, n, s, pre.region_order(n, s));
                        vstd::set_lib::lemma_len_subset(pre.nodes().dom(), start.nodes().dom());
                        lemma_restructured_step(start, pre, *self, n, s, pre.region_order(n, s));
                    }
                    progress = true;
                }
            }
            i += 1;
        }
        proof {
            if !progress {
                assert(is_dfs_result(start.graph, start.entry as int, backedges@, podfs_trace@));
                assert(start.nothing_to_collapse(backedges@, podfs_trace@));
            }
        }
        progress
    }

    /// Structures the whole graph. A graph that holds a node which the entry
    /// does not reach is refused. A graph of one node yields the payload of
    /// that node. Otherwise passes are made for as long as they collapse
    /// something; every collapse leaves two nodes or more, so the passes end
    /// with one that collapses nothing, and the result is that the graph is stuck.
    pub fn structure_whole(self) -> (r: Result<AstNode, StructureError>)
        requires
            self.wf(),
        ensures
            r == if !self.all_reachable() {
                Err::<AstNode, StructureError>(StructureError::MalformedInput)
            } else if self.nodes().dom().len() == 1 {
                Ok(self.nodes()[self.entry as int])
            } else {
                Err(StructureError::StructuringStuck)
            },
    {
        let mut cfg = self;
        let count = store_node_count(&cfg.graph);
        let (_, podfs_trace) = cfg.do_dfs();
        proof {
            lemma_trace_covers(cfg, podfs_trace@);
        }
        if podfs_trace.len() != count {
            return Err(StructureError::MalformedInput);
        }
        if count == 1 {
            proof {
                assert(is_node(cfg.graph, cfg.entry as int));
            }
            let payload = store_remove_node(&mut cfg.graph, cfg.entry);
            return Ok(payload.unwrap());
        }
        proof {
            assert(cfg.nodes().dom().len() >= 2) by {
                if cfg.nodes().dom().len() == 0 {
                    assert(cfg.nodes().dom().contains(cfg.entry as int));
                }
            }
        }
        loop
            invariant
                cfg.wf(),
                cfg.nodes().dom().len() >= 2,
                self.all_reachable(),
                self.nodes().dom().len() >= 2,
            decreases cfg.nodes().dom().len(),
        {
            if !cfg.structure_pass() {
                return Err(StructureError::StructuringStuck);
            }
        }
    }
}

/// The post-order of a walk from the entry has as many elements as the graph
/// has nodes exactly when the entry reaches every node.
pub proof fn lemma_trace_covers(cfg: ControlFlowGraph, po: Seq<usize>)
    requires
        cfg.wf(),
        po.no_duplicates(),
        forall|i: int|
            0 <= i < po.len() ==> cfg.topology().reachable(cfg.entry as int, #[trigger] po[i] as int),
        forall|n: int| #[trigger]
            cfg.topology().reachable(cfg.entry as int, n) ==> 0 <= n && po.contains(n as usize),
    ensures
        cfg.all_reachable() <==> po.len() == cfg.nodes().dom().len(),
{
    let t = cfg.topology();
    let nodes = cfg.nodes().dom();
    let ids = po.map_values(|x: usize| x as int);
    assert(ids.no_duplicates()) by {
        assert forall|i: int, j: int| 0 <= i < ids.len() && 0 <= j < ids.len() && i != j implies ids[i]
            != ids[j] by {
            assert(po[i] != po[j]);
        }
    }
    ids.unique_seq_to_set();
    assert(ids.to_set().subset_of(nodes)) by {
        assert forall|x: int| ids.to_set().contains(x) implies nodes.contains(x) by {
            let k = choose|k: int| 0 <= k < ids.len() && ids[k] == x;
            assert(t.reachable(cfg.entry as int, po[k] as int));
            let p = choose|p: Seq<int>| #[trigger] t.path_between(p, cfg.entry as int, x);
            lemma_path_stays_in_nodes(t, p, p.len() - 1);
        }
    }
    vstd::set_lib::lemma_len_subset(ids.to_set(), nodes);
    if cfg.all_reachable() {
        assert(nodes.subset_of(ids.to_set())) by {
            assert forall|x: int| nodes.contains(x) implies ids.to_set().contains(x) by {
                assert(is_node(cfg.graph, x));
                let k = choose|k: int| 0 <= k < po.len() && po[k] == x as usize;
                assert(ids[k] == x);
            }
        }
        assert(nodes =~= ids.to_set());
    }
    if po.len() == nodes.len() {
        vstd::set_lib::lemma_subset_equality(ids.to_set(), nodes);
        assert forall|n: int| #[trigger] is_node(cfg.graph, n) implies t.reachable(
            cfg.entry as int,
            n,
        ) by {
            assert(ids.to_set().contains(n));
            let k = choose|k: int| 0 <= k < ids.len() && ids[k] == n;
            assert(po[k] as int == n);
        }
    }
}

} // verus!
