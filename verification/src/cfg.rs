//! The control-flow graph and the operations that structure it.

use crate::ast::{AstNode, SimpleCondition};
use crate::bitset::{bit_len, bits, bitset_with_capacity};
use crate::dfs::{depth_first_classify, is_dfs_result};
use crate::error::StructureError;
use crate::graph::{
    graph_edges, graph_nodes, is_edge, is_node, store_add_edge, store_add_node, store_contains_node,
    store_edge_count, store_new, store_node_bound, store_node_count, store_remove_edge,
    store_remove_node, store_replace_payload, store_wf, topology_of, CfgGraph,
};
use crate::topology::Topology;
use fixedbitset::FixedBitSet;
use std::collections::HashMap;
use vstd::prelude::*;

verus! {

/// A directed graph of program trees with a distinguished entry node.
pub struct ControlFlowGraph {
    pub graph: CfgGraph,
    pub entry: usize,
}

/// The description from which a graph is built is usable: the entry and every
/// edge endpoint are positions of `nodes`, and nodes and edges are few enough
/// for 32-bit indices.
pub open spec fn input_ok(
    nodes: Seq<AstNode>,
    edges: Seq<(usize, usize, SimpleCondition)>,
    entry: usize,
) -> bool {
    &&& nodes.len() < u32::MAX
    &&& edges.len() < u32::MAX
    &&& entry < nodes.len()
    &&& forall|j: int|
        0 <= j < edges.len() ==> (#[trigger] edges[j]).0 < nodes.len() && edges[j].1 < nodes.len()
}

/// `ids` names the nodes of `g` in the order of `nodes`: position `i` became
/// node `ids[i]` with payload `nodes[i]`, and the graph has no other node.
pub open spec fn nodes_built(g: CfgGraph, ids: Seq<usize>, nodes: Seq<AstNode>) -> bool {
    &&& ids.len() == nodes.len()
    &&& ids.no_duplicates()
    &&& forall|i: int|
        0 <= i < ids.len() ==> is_node(g, #[trigger] ids[i] as int) && graph_nodes(g)[ids[i] as int]
            == nodes[i]
    &&& forall|n: int| #[trigger] is_node(g, n) ==> 0 <= n && ids.contains(n as usize)
}

/// `eids` names the edges of `g` in the order of `edges`: position `j` became
/// edge `eids[j]`, which joins the nodes that `ids` gives for its endpoints and
/// carries its predicate; and the graph has no other edge.
pub open spec fn edges_built(
    g: CfgGraph,
    ids: Seq<usize>,
    eids: Seq<usize>,
    edges: Seq<(usize, usize, SimpleCondition)>,
) -> bool {
    &&& eids.len() == edges.len()
    &&& eids.no_duplicates()
    &&& forall|j: int|
        0 <= j < eids.len() ==> is_edge(g, #[trigger] eids[j] as int) && graph_edges(g)[eids[j] as int]
            == (ids[edges[j].0 as int] as int, ids[edges[j].1 as int] as int, edges[j].2)
    &&& forall|e: int| #[trigger] is_edge(g, e) ==> 0 <= e && eids.contains(e as usize)
}

/// `cfg` is the graph described by `nodes`, `edges` and `entry`, under some
/// naming of its nodes and edges.
pub open spec fn built_from(
    cfg: ControlFlowGraph,
    nodes: Seq<AstNode>,
    edges: Seq<(usize, usize, SimpleCondition)>,
    entry: usize,
) -> bool {
    exists|ids: Seq<usize>, eids: Seq<usize>|
        {
            &&& #[trigger] nodes_built(cfg.graph, ids, nodes)
            &&& #[trigger] edges_built(cfg.graph, ids, eids, edges)
            &&& cfg.entry == ids[entry as int]
        }
}

impl ControlFlowGraph {
    /// The nodes, by index, with their payloads.
    pub open spec fn nodes(&self) -> Map<int, AstNode> {
        graph_nodes(self.graph)
    }

    /// The edges, by index, with source, target and predicate.
    pub open spec fn edges(&self) -> Map<int, (int, int, SimpleCondition)> {
        graph_edges(self.graph)
    }

    /// The shape of the graph.
    pub open spec fn topology(&self) -> Topology {
        topology_of(self.graph)
    }

    /// The graph is finite, its edges join its nodes, its indices fit in 32
    /// bits, and its entry is one of its nodes.
    pub open spec fn wf(&self) -> bool {
        store_wf(self.graph) && is_node(self.graph, self.entry as int)
    }

    /// Builds the graph that has one node for each element of `nodes`, in
    /// order, and one edge for each element of `edges`, whose endpoints are
    /// positions of `nodes`; `entry` is the position of the entry node.
    pub fn new(
        nodes: Vec<AstNode>,
        edges: Vec<(usize, usize, SimpleCondition)>,
        entry: usize,
    ) -> (r: Result<ControlFlowGraph, StructureError>)
        ensures
            r is Ok <==> input_ok(nodes@, edges@, entry),
            r matches Err(e) ==> e == StructureError::MalformedInput,
            r matches Ok(cfg) ==> cfg.wf() && built_from(cfg, nodes@, edges@, entry),
    {
        match ControlFlowGraph::new_with_ids(nodes, edges, entry) {
            Ok(built) => {
                proof {
                    assert(nodes_built(built.0.graph, built.1@, nodes@));
                    assert(edges_built(built.0.graph, built.1@, built.2@, edges@));
                }
                Ok(built.0)
            },
            Err(e) => Err(e),
        }
    }

    /// Builds the graph as [`ControlFlowGraph::new`] does, and returns with it
    /// the index that each node and each edge was given: the node made of
    /// `nodes[i]` has the index at position `i` of the first list, the edge
    /// made of `edges[j]` the index at position `j` of the second.
    pub fn new_with_ids(
        nodes: Vec<AstNode>,
        edges: Vec<(usize, usize, SimpleCondition)>,
        entry: usize,
    ) -> (r: Result<(ControlFlowGraph, Vec<usize>, Vec<usize>), StructureError>)
        ensures
            r is Ok <==> input_ok(nodes@, edges@, entry),
            r matches Err(e) ==> e == StructureError::MalformedInput,
            r matches Ok(built) ==> {
                &&& built.0.wf()
                &&& nodes_built(built.0.graph, built.1@, nodes@)
                &&& edges_built(built.0.graph, built.1@, built.2@, edges@)
                &&& built.0.entry == built.1@[entry as int]
            },
    {
        if nodes.len() >= u32::MAX as usize || edges.len() >= u32::MAX as usize || entry
            >= nodes.len() {
            return Err(StructureError::MalformedInput);
        }
        let n = nodes.len();
        let mut j: usize = 0;
        while j < edges.len()
            invariant
                j <= edges.len(),
                n == nodes.len(),
                forall|k: int| 0 <= k < j ==> (#[trigger] edges@[k]).0 < n && edges@[k].1 < n,
            decreases edges.len() - j,
        {
            if edges[j].0 >= n || edges[j].1 >= n {
                return Err(StructureError::MalformedInput);
            }
            j += 1;
        }
        let ghost nodes0 = nodes@;
        let ghost edges0 = edges@;
        let mut graph = store_new();
        let mut ids: Vec<usize> = Vec::new();
        for payload in it: nodes
            invariant
                it.seq() == nodes0,
                ids@.len() == it.index(),
                nodes_built(graph, ids@, nodes0.take(it.index() as int)),
                graph_edges(graph).dom() == Set::<int>::empty(),
                graph_nodes(graph).dom().finite(),
                graph_nodes(graph).dom().len() == ids@.len(),
                forall|m: int| #[trigger] is_node(graph, m) ==> 0 <= m < u32::MAX,
                nodes0.len() < u32::MAX,
        {
            let ghost g0 = graph;
            let ghost ids0 = ids@;
            let id = store_add_node(&mut graph, payload);
            ids.push(id);
            proof {
                assert(nodes0.take(it.index() as int + 1) == nodes0.take(it.index() as int).push(
                    payload,
                ));
                assert forall|m: int| #[trigger] is_node(graph, m) implies 0 <= m < u32::MAX
                    && ids@.contains(m as usize) by {
                    if m == id as int {
                        assert(ids@[ids0.len() as int] == id);
                    } else {
                        assert(is_node(g0, m));
                        let k = choose|k: int| 0 <= k < ids0.len() && ids0[k] == m as usize;
                        assert(ids@[k] == m as usize);
                    }
                }
            }
        }
        assert(nodes0.take(nodes0.len() as int) == nodes0);
        proof {
            assert(topology_of(graph).arcs.dom() =~= Set::<int>::empty());
            assert(store_wf(graph));
        }
        let mut eids: Vec<usize> = Vec::new();
        for edge in it: edges
            invariant
                it.seq() == edges0,
                eids@.len() == it.index(),
                nodes_built(graph, ids@, nodes0),
                edges_built(graph, ids@, eids@, edges0.take(it.index() as int)),
                graph_edges(graph).dom().finite(),
                graph_edges(graph).dom().len() == eids@.len(),
                store_wf(graph),
                edges0.len() < u32::MAX,
                forall|k: int|
                    0 <= k < edges0.len() ==> (#[trigger] edges0[k]).0 < nodes0.len() && edges0[k].1
                        < nodes0.len(),
        {
            let ghost g0 = graph;
            let ghost eids0 = eids@;
            let a = ids[edge.0];
            let b = ids[edge.1];
            let eid = store_add_edge(&mut graph, a, b, edge.2);
            eids.push(eid);
            proof {
                assert(edges0.take(it.index() as int + 1) == edges0.take(it.index() as int).push(
                    edge,
                ));
                assert forall|e: int| #[trigger] is_edge(graph, e) implies 0 <= e && eids@.contains(
                    e as usize,
                ) by {
                    if e == eid as int {
                        assert(eids@[eids0.len() as int] == eid);
                    } else {
                        assert(is_edge(g0, e));
                        let k = choose|k: int| 0 <= k < eids0.len() && eids0[k] == e as usize;
                        assert(eids@[k] == e as usize);
                    }
                }
                assert(topology_of(graph).arcs.dom() =~= topology_of(g0).arcs.dom().insert(eid as int));
                assert(topology_of(graph).nodes == topology_of(g0).nodes);
                assert forall|e: int| #[trigger] topology_of(graph).arcs.dom().contains(e) implies
                    topology_of(graph).nodes.contains(topology_of(graph).arcs[e].0) && topology_of(
                    graph,
                ).nodes.contains(topology_of(graph).arcs[e].1) by {
                    if e != eid as int {
                        assert(topology_of(g0).arcs.dom().contains(e));
                    } else {
                        assert(is_node(g0, a as int));
                        assert(is_node(g0, b as int));
                    }
                }
                assert forall|e: int| #[trigger] is_edge(graph, e) implies 0 <= e < u32::MAX by {
                    if e != eid as int {
                        assert(is_edge(g0, e));
                    }
                }
                assert forall|m: int| #[trigger] is_node(graph, m) implies 0 <= m < u32::MAX by {
                    assert(is_node(g0, m));
                }
                assert(store_wf(graph));
                assert forall|m: int| #[trigger] is_node(graph, m) implies 0 <= m && ids@.contains(
                    m as usize,
                ) by {
                    assert(is_node(g0, m));
                }
                assert(nodes_built(graph, ids@, nodes0));
            }
        }
        assert(edges0.take(edges0.len() as int) == edges0);
        let cfg = ControlFlowGraph { graph, entry: ids[entry] };
        proof {
            assert(nodes_built(cfg.graph, ids@, nodes0));
            assert(edges_built(cfg.graph, ids@, eids@, edges0));
            assert(is_node(cfg.graph, ids@[entry as int] as int));
            assert(cfg.wf());
        }
        Ok((cfg, ids, eids))
    }

    /// The number of nodes.
    pub fn node_count(&self) -> (r: usize)
        ensures
            r == self.nodes().dom().len(),
    {
        store_node_count(&self.graph)
    }

    /// Whether `n` is a node of the graph.
    pub fn contains_node(&self, n: usize) -> (r: bool)
        requires
            self.wf(),
        ensures
            r == is_node(self.graph, n as int),
    {
        n <= u32::MAX as usize && store_contains_node(&self.graph, n)
    }

    /// Adds a node with the given payload and no edges, and returns its
    /// index. A graph that holds as many nodes as 32-bit indices allow is left
    /// as it is.
    pub fn add_node(&mut self, payload: AstNode) -> (r: Result<usize, StructureError>)
        requires
            old(self).wf(),
        ensures
            final(self).wf(),
            final(self).entry == old(self).entry,
            final(self).edges() == old(self).edges(),
            match r {
                Ok(n) => {
                    &&& old(self).nodes().dom().len() < u32::MAX - 1
                    &&& !is_node(old(self).graph, n as int)
                    &&& final(self).nodes() == old(self).nodes().insert(n as int, payload)
                },
                Err(e) => {
                    &&& e == StructureError::MalformedInput
                    &&& old(self).nodes().dom().len() >= u32::MAX - 1
                    &&& final(self).nodes() == old(self).nodes()
                },
            },
    {
        if store_node_count(&self.graph) >= u32::MAX as usize - 1 {
            return Err(StructureError::MalformedInput);
        }
        let ghost g0 = self.graph;
        let n = store_add_node(&mut self.graph, payload);
        proof {
            let g1 = self.graph;
            assert(topology_of(g1).arcs == topology_of(g0).arcs);
            assert forall|e: int| #[trigger] topology_of(g1).arcs.dom().contains(e) implies topology_of(
                g1,
            ).nodes.contains(topology_of(g1).arcs[e].0) && topology_of(g1).nodes.contains(
                topology_of(g1).arcs[e].1,
            ) by {
                assert(topology_of(g0).arcs.dom().contains(e));
            }
            assert forall|m: int| #[trigger] is_node(g1, m) implies 0 <= m < u32::MAX by {
                if m != n as int {
                    assert(is_node(g0, m));
                }
            }
            assert forall|e: int| #[trigger] is_edge(g1, e) implies 0 <= e < u32::MAX by {
                assert(is_edge(g0, e));
            }
        }
        Ok(n)
    }

    /// Adds an edge from `a` to `b` that carries `label`, and returns its
    /// index. Where `a` or `b` is no node, or the graph holds as many edges as
    /// 32-bit indices allow, the graph is left as it is.
    pub fn add_edge(&mut self, a: usize, b: usize, label: SimpleCondition) -> (r: Result<
        usize,
        StructureError,
    >)
        requires
            old(self).wf(),
        ensures
            final(self).wf(),
            final(self).entry == old(self).entry,
            final(self).nodes() == old(self).nodes(),
            match r {
                Ok(e) => {
                    &&& is_node(old(self).graph, a as int)
                    &&& is_node(old(self).graph, b as int)
                    &&& old(self).edges().dom().len() < u32::MAX - 1
                    &&& !is_edge(old(self).graph, e as int)
                    &&& final(self).edges() == old(self).edges().insert(
                        e as int,
                        (a as int, b as int, label),
                    )
                },
                Err(e) => {
                    &&& e == StructureError::MalformedInput
                    &&& !(is_node(old(self).graph, a as int) && is_node(old(self).graph, b as int)
                        && old(self).edges().dom().len() < u32::MAX - 1)
                    &&& final(self).edges() == old(self).edges()
                },
            },
    {
        if !self.contains_node(a) || !self.contains_node(b) || store_edge_count(&self.graph)
            >= u32::MAX as usize - 1 {
            return Err(StructureError::MalformedInput);
        }
        let ghost g0 = self.graph;
        proof {
            assert(topology_of(g0).arcs.dom() =~= graph_edges(g0).dom());
        }
        let e = store_add_edge(&mut self.graph, a, b, label);
        proof {
            let g1 = self.graph;
            assert(topology_of(g1).arcs.dom() =~= topology_of(g0).arcs.dom().insert(e as int));
            assert forall|x: int| #[trigger] topology_of(g1).arcs.dom().contains(x) implies topology_of(
                g1,
            ).nodes.contains(topology_of(g1).arcs[x].0) && topology_of(g1).nodes.contains(
                topology_of(g1).arcs[x].1,
            ) by {
                if x != e as int {
                    assert(topology_of(g0).arcs.dom().contains(x));
                }
            }
            assert forall|m: int| #[trigger] is_node(g1, m) implies 0 <= m < u32::MAX by {
                assert(is_node(g0, m));
            }
            assert forall|x: int| #[trigger] is_edge(g1, x) implies 0 <= x < u32::MAX by {
                if x != e as int {
                    assert(is_edge(g0, x));
                }
            }
        }
        Ok(e)
    }

    /// Takes node `n` out of the graph, with every edge that starts or ends at
    /// it, and returns its payload. The entry stays: for the entry, and for
    /// an index that names no node, nothing changes and `None` is returned.
    pub fn remove_node(&mut self, n: usize) -> (r: Option<AstNode>)
        requires
            old(self).wf(),
        ensures
            final(self).wf(),
            final(self).entry == old(self).entry,
            match r {
                Some(payload) => {
                    &&& is_node(old(self).graph, n as int)
                    &&& n != old(self).entry
                    &&& payload == old(self).nodes()[n as int]
                    &&& final(self).nodes() == old(self).nodes().remove(n as int)
                    &&& final(self).edges() == old(self).edges().restrict(
                        Set::new(
                            |e: int|
                                old(self).edges()[e].0 != n as int && old(self).edges()[e].1
                                    != n as int,
                        ),
                    )
                },
                None => {
                    &&& !is_node(old(self).graph, n as int) || n == old(self).entry
                    &&& *final(self) == *old(self)
                },
            },
    {
        if n == self.entry || !self.contains_node(n) {
            return None;
        }
        let ghost g0 = self.graph;
        let payload = store_remove_node(&mut self.graph, n);
        proof {
            let g1 = self.graph;
            assert(topology_of(g1).nodes.subset_of(topology_of(g0).nodes));
            vstd::set_lib::lemma_len_subset(topology_of(g1).nodes, topology_of(g0).nodes);
            assert(topology_of(g1).arcs.dom().subset_of(topology_of(g0).arcs.dom()));
            vstd::set_lib::lemma_len_subset(topology_of(g1).arcs.dom(), topology_of(g0).arcs.dom());
            assert forall|x: int| #[trigger] topology_of(g1).arcs.dom().contains(x) implies topology_of(
                g1,
            ).nodes.contains(topology_of(g1).arcs[x].0) && topology_of(g1).nodes.contains(
                topology_of(g1).arcs[x].1,
            ) by {
                assert(topology_of(g0).arcs.dom().contains(x));
            }
            assert forall|m: int| #[trigger] is_node(g1, m) implies 0 <= m < u32::MAX by {
                assert(is_node(g0, m));
            }
            assert forall|x: int| #[trigger] is_edge(g1, x) implies 0 <= x < u32::MAX by {
                assert(is_edge(g0, x));
            }
        }
        payload
    }

    /// Takes edge `e` out of the graph and returns its predicate; for an
    /// index that names no edge nothing changes and `None` is returned.
    pub fn remove_edge(&mut self, e: usize) -> (r: Option<SimpleCondition>)
        requires
            old(self).wf(),
        ensures
            final(self).wf(),
            final(self).entry == old(self).entry,
            final(self).nodes() == old(self).nodes(),
            final(self).edges() == old(self).edges().remove(e as int),
            r == if is_edge(old(self).graph, e as int) {
                Some(old(self).edges()[e as int].2)
            } else {
                None
            },
    {
        if e > u32::MAX as usize {
            proof {
                assert(!is_edge(self.graph, e as int));
                assert(self.edges().remove(e as int) =~= self.edges());
            }
            return None;
        }
        let ghost g0 = self.graph;
        let label = store_remove_edge(&mut self.graph, e);
        proof {
            let g1 = self.graph;
            assert(topology_of(g1).arcs.dom().subset_of(topology_of(g0).arcs.dom()));
            vstd::set_lib::lemma_len_subset(topology_of(g1).arcs.dom(), topology_of(g0).arcs.dom());
            assert forall|x: int| #[trigger] topology_of(g1).arcs.dom().contains(x) implies topology_of(
                g1,
            ).nodes.contains(topology_of(g1).arcs[x].0) && topology_of(g1).nodes.contains(
                topology_of(g1).arcs[x].1,
            ) by {
                assert(topology_of(g0).arcs.dom().contains(x));
            }
            assert forall|m: int| #[trigger] is_node(g1, m) implies 0 <= m < u32::MAX by {
                assert(is_node(g0, m));
            }
            assert forall|x: int| #[trigger] is_edge(g1, x) implies 0 <= x < u32::MAX by {
                assert(is_edge(g0, x));
            }
        }
        label
    }

    /// Puts `payload` in the place of the payload of node `n`, whose edges
    /// stay as they are, and returns the old payload; for an index that names
    /// no node nothing changes and `None` is returned.
    pub fn replace_payload(&mut self, n: usize, payload: AstNode) -> (r: Option<AstNode>)
        requires
            old(self).wf(),
        ensures
            final(self).wf(),
            final(self).entry == old(self).entry,
            final(self).edges() == old(self).edges(),
            match r {
                Some(earlier) => {
                    &&& is_node(old(self).graph, n as int)
                    &&& earlier == old(self).nodes()[n as int]
                    &&& final(self).nodes() == old(self).nodes().insert(n as int, payload)
                },
                None => !is_node(old(self).graph, n as int) && *final(self) == *old(self),
            },
    {
        if !self.contains_node(n) {
            return None;
        }
        let ghost g0 = self.graph;
        let earlier = store_replace_payload(&mut self.graph, n, payload);
        proof {
            let g1 = self.graph;
            assert(topology_of(g1).nodes =~= topology_of(g0).nodes);
            assert(topology_of(g1).arcs == topology_of(g0).arcs);
            assert forall|m: int| #[trigger] is_node(g1, m) implies 0 <= m < u32::MAX by {
                assert(is_node(g0, m));
            }
            assert forall|x: int| #[trigger] is_edge(g1, x) implies 0 <= x < u32::MAX by {
                assert(is_edge(g0, x));
            }
        }
        Some(earlier)
    }

    /// An empty set with room for every node of the graph.
    pub fn mk_node_set(&self) -> (r: FixedBitSet)
        ensures
            bits(r) == Set::<int>::empty(),
            forall|n: int| #[trigger] is_node(self.graph, n) ==> 0 <= n < bit_len(r),
            bit_len(r) == 0 || is_node(self.graph, bit_len(r) - 1),
    {
        bitset_with_capacity(store_node_bound(&self.graph))
    }

    /// One depth-first walk from the entry: the back edges, listed under the
    /// node each ends at, and the post-order of the nodes.
    pub fn do_dfs(&self) -> (r: (HashMap<usize, Vec<usize>>, Vec<usize>))
        requires
            self.wf(),
        ensures
            is_dfs_result(self.graph, self.entry as int, r.0@, r.1@),
    {
        depth_first_classify(&self.graph, self.entry)
    }
}

} // verus!
