use ctrl_flow_struct::ast::{AstNode, SimpleCondition};
use ctrl_flow_struct::cfg::ControlFlowGraph;
use ctrl_flow_struct::driver::reversed;
use ctrl_flow_struct::error::StructureError;
use ctrl_flow_struct::region::vec_contains;
use ctrl_flow_struct::synth::{entered_at, position};
use petgraph::graph::{EdgeIndex, NodeIndex};

fn block(label: &str) -> AstNode {
    AstNode::BasicBlock(label.to_owned())
}

fn cond(label: &str) -> SimpleCondition {
    SimpleCondition(label.to_owned())
}

fn graph(labels: &[&str], edges: &[(usize, usize, &str)], entry: usize) -> ControlFlowGraph {
    let nodes: Vec<AstNode> = labels.iter().map(|l| block(l)).collect();
    let edges: Vec<(usize, usize, SimpleCondition)> =
        edges.iter().map(|(a, b, l)| (*a, *b, cond(l))).collect();
    let count = nodes.len();
    let (cfg, ids, _) = ControlFlowGraph::new_with_ids(nodes, edges, entry).unwrap();
    // the tests below name nodes by their position
    assert_eq!(ids, (0..count).collect::<Vec<usize>>());
    cfg
}

fn members(set: &fixedbitset::FixedBitSet) -> Vec<usize> {
    set.ones().collect()
}

#[test]
fn new_builds_nodes_and_edges_in_order() {
    let cfg = graph(&["A", "B", "C"], &[(0, 1, "x"), (1, 2, "")], 0);
    assert_eq!(cfg.entry, 0);
    assert_eq!(cfg.graph.node_count(), 3);
    assert_eq!(cfg.graph.edge_count(), 2);
    assert_eq!(cfg.graph[NodeIndex::new(0)], block("A"));
    assert_eq!(cfg.graph[NodeIndex::new(1)], block("B"));
    assert_eq!(cfg.graph[NodeIndex::new(2)], block("C"));
    assert_eq!(
        cfg.graph.edge_endpoints(EdgeIndex::new(0)),
        Some((NodeIndex::new(0), NodeIndex::new(1)))
    );
    assert_eq!(cfg.graph[EdgeIndex::new(0)], cond("x"));
    assert_eq!(
        cfg.graph.edge_endpoints(EdgeIndex::new(1)),
        Some((NodeIndex::new(1), NodeIndex::new(2)))
    );
    assert_eq!(cfg.graph[EdgeIndex::new(1)], cond(""));
}

#[test]
fn new_keeps_the_chosen_entry() {
    let cfg = graph(&["A", "B"], &[(1, 0, "")], 1);
    assert_eq!(cfg.entry, 1);
}

#[test]
fn new_refuses_an_entry_that_is_no_node() {
    let r = ControlFlowGraph::new(vec![block("A")], vec![], 1);
    assert_eq!(r.err(), Some(StructureError::MalformedInput));
}

#[test]
fn new_refuses_an_empty_graph() {
    let r = ControlFlowGraph::new(vec![], vec![], 0);
    assert_eq!(r.err(), Some(StructureError::MalformedInput));
}

#[test]
fn new_refuses_a_dangling_edge_source() {
    let r = ControlFlowGraph::new(vec![block("A"), block("B")], vec![(2, 0, cond(""))], 0);
    assert_eq!(r.err(), Some(StructureError::MalformedInput));
}

#[test]
fn new_refuses_a_dangling_edge_target() {
    let r = ControlFlowGraph::new(
        vec![block("A"), block("B")],
        vec![(0, 1, cond("")), (0, 5, cond(""))],
        0,
    );
    assert_eq!(r.err(), Some(StructureError::MalformedInput));
}

#[test]
fn mk_node_set_is_empty_with_room_for_every_node() {
    let cfg = graph(&["A", "B", "C"], &[(0, 1, ""), (1, 2, "")], 0);
    let set = cfg.mk_node_set();
    assert_eq!(set.len(), 3);
    assert_eq!(set.count_ones(..), 0);
}

#[test]
fn dfs_of_a_chain_finishes_the_last_node_first() {
    let cfg = graph(&["A", "B", "C"], &[(0, 1, ""), (1, 2, "")], 0);
    let (backedges, postorder) = cfg.do_dfs();
    assert_eq!(postorder, vec![2, 1, 0]);
    assert!(backedges.is_empty());
}

#[test]
fn dfs_lists_a_back_edge_under_its_target() {
    // 0 -> 1 -> 2 -> 1, 2 -> 3
    let cfg = graph(&["E", "L", "M", "X"], &[(0, 1, ""), (1, 2, ""), (2, 1, "again"), (2, 3, "")], 0);
    let (backedges, postorder) = cfg.do_dfs();
    assert_eq!(postorder, vec![3, 2, 1, 0]);
    assert_eq!(backedges.len(), 1);
    assert_eq!(backedges.get(&1), Some(&vec![2]));
}

#[test]
fn dfs_lists_a_self_loop_as_a_back_edge() {
    let cfg = graph(&["A", "B"], &[(0, 1, ""), (1, 1, "")], 0);
    let (backedges, postorder) = cfg.do_dfs();
    assert_eq!(postorder, vec![1, 0]);
    assert_eq!(backedges.get(&1), Some(&vec![1]));
}

#[test]
fn dfs_lists_every_back_edge_of_a_target() {
    // two latches into node 1
    let cfg = graph(
        &["E", "H", "P", "Q"],
        &[(0, 1, ""), (1, 2, ""), (1, 3, ""), (2, 1, ""), (3, 1, "")],
        0,
    );
    let (backedges, postorder) = cfg.do_dfs();
    assert_eq!(postorder.len(), 4);
    assert_eq!(postorder[3], 0);
    let mut latches = backedges.get(&1).unwrap().clone();
    latches.sort();
    assert_eq!(latches, vec![3, 4]);
}

#[test]
fn dfs_does_not_list_forward_and_cross_edges() {
    // diamond with a shortcut from the header to the join
    let cfg = graph(
        &["H", "A", "B", "S"],
        &[(0, 1, ""), (0, 2, ""), (1, 3, ""), (2, 3, ""), (0, 3, "")],
        0,
    );
    let (backedges, postorder) = cfg.do_dfs();
    assert!(backedges.is_empty());
    assert_eq!(postorder.len(), 4);
    assert_eq!(postorder[3], 0);
    let at = |n: usize| postorder.iter().position(|x| *x == n).unwrap();
    assert!(at(3) < at(1));
    assert!(at(3) < at(2));
}

#[test]
fn dfs_leaves_out_what_the_entry_does_not_reach() {
    let cfg = graph(&["A", "B", "U"], &[(0, 1, ""), (2, 1, "")], 0);
    let (backedges, postorder) = cfg.do_dfs();
    assert_eq!(postorder, vec![1, 0]);
    assert!(backedges.is_empty());
}

#[test]
fn header_dominates_itself() {
    let cfg = graph(&["E", "H", "A", "B", "S"], &[(0, 1, ""), (0, 4, ""), (1, 2, "c"), (1, 3, "!c"), (2, 4, ""), (3, 4, "")], 0);
    for h in 0..5 {
        assert!(cfg.dominates_set(h).contains(h));
    }
}

#[test]
fn dominates_set_of_a_branch_header_holds_both_branches() {
    let cfg = graph(&["E", "H", "A", "B", "S"], &[(0, 1, ""), (0, 4, ""), (1, 2, "c"), (1, 3, "!c"), (2, 4, ""), (3, 4, "")], 0);
    assert_eq!(members(&cfg.dominates_set(1)), vec![1, 2, 3]);
    assert_eq!(members(&cfg.dominates_set(0)), vec![0, 1, 2, 3, 4]);
    assert_eq!(members(&cfg.dominates_set(2)), vec![2]);
    assert_eq!(members(&cfg.dominates_set(4)), vec![4]);
}

#[test]
fn dominates_set_of_the_diamond_header_holds_the_join() {
    let cfg = graph(&["H", "A", "B", "S"], &[(0, 1, "c"), (0, 2, "!c"), (1, 3, ""), (2, 3, "")], 0);
    assert_eq!(members(&cfg.dominates_set(0)), vec![0, 1, 2, 3]);
}

#[test]
fn dominates_set_leaves_out_unreachable_nodes() {
    let cfg = graph(&["A", "B", "U"], &[(0, 1, ""), (2, 1, "")], 0);
    assert_eq!(members(&cfg.dominates_set(0)), vec![0, 1]);
    assert_eq!(members(&cfg.dominates_set(2)), Vec::<usize>::new());
}

#[test]
fn dominates_set_of_no_node_is_empty() {
    let cfg = graph(&["A", "B"], &[(0, 1, "")], 0);
    assert_eq!(members(&cfg.dominates_set(7)), Vec::<usize>::new());
}

#[test]
fn successors_of_set_is_the_union_of_the_successors() {
    let cfg = graph(&["E", "H", "A", "B", "S"], &[(0, 1, ""), (0, 4, ""), (1, 2, "c"), (1, 3, "!c"), (2, 4, ""), (3, 4, "")], 0);
    let region = cfg.dominates_set(1);
    assert_eq!(members(&cfg.successors_of_set(&region)), vec![2, 3, 4]);
    let empty = cfg.mk_node_set();
    assert_eq!(members(&cfg.successors_of_set(&empty)), Vec::<usize>::new());
    let mut only_exit = cfg.mk_node_set();
    only_exit.insert(4);
    assert_eq!(members(&cfg.successors_of_set(&only_exit)), Vec::<usize>::new());
}

#[test]
fn sese_exit_finds_the_single_exit() {
    let cfg = graph(&["E", "H", "A", "B", "S"], &[(0, 1, ""), (0, 4, ""), (1, 2, "c"), (1, 3, "!c"), (2, 4, ""), (3, 4, "")], 0);
    assert_eq!(cfg.sese_exit(1), Some(4));
}

#[test]
fn sese_exit_skips_a_single_block() {
    let cfg = graph(&["E", "H", "A", "B", "S"], &[(0, 1, ""), (0, 4, ""), (1, 2, "c"), (1, 3, "!c"), (2, 4, ""), (3, 4, "")], 0);
    assert_eq!(cfg.sese_exit(2), None);
    assert_eq!(cfg.sese_exit(4), None);
}

#[test]
fn sese_exit_skips_a_region_without_exit() {
    let cfg = graph(&["E", "H", "A", "B", "S"], &[(0, 1, ""), (0, 4, ""), (1, 2, "c"), (1, 3, "!c"), (2, 4, ""), (3, 4, "")], 0);
    assert_eq!(cfg.sese_exit(0), None);
}

#[test]
fn sese_exit_skips_a_region_with_two_exits() {
    // H dominates A; A leaves to X and to Y, which the entry reaches otherwise too
    let cfg = graph(
        &["E", "H", "A", "X", "Y"],
        &[(0, 1, ""), (0, 3, ""), (0, 4, ""), (1, 2, ""), (2, 3, "p"), (2, 4, "q")],
        0,
    );
    assert_eq!(members(&cfg.dominates_set(1)), vec![1, 2]);
    assert_eq!(cfg.sese_exit(1), None);
}

#[test]
fn position_finds_the_first_occurrence() {
    assert_eq!(position(&vec![4, 7, 9, 7], 7), Some(1));
    assert_eq!(position(&vec![4, 7, 9], 4), Some(0));
    assert_eq!(position(&vec![4, 7, 9], 5), None);
    assert_eq!(position(&vec![], 5), None);
}

#[test]
fn reversed_turns_a_list_round() {
    assert_eq!(reversed(&vec![1, 2, 3]), vec![3, 2, 1]);
    assert_eq!(reversed(&vec![]), Vec::<usize>::new());
}

#[test]
fn vec_contains_looks_for_an_element() {
    assert!(vec_contains(&vec![3, 5], 5));
    assert!(!vec_contains(&vec![3, 5], 4));
    assert!(!vec_contains(&vec![], 4));
}

#[test]
fn entered_at_asks_for_an_edge_from_an_earlier_position() {
    let cfg = graph(&["A", "B", "C"], &[(0, 1, ""), (2, 1, ""), (1, 2, "")], 0);
    assert!(entered_at(&cfg.graph, &vec![0, 1, 2], 1));
    assert!(entered_at(&cfg.graph, &vec![0, 1, 2], 2));
    assert!(!entered_at(&cfg.graph, &vec![0, 2, 1], 1));
    assert!(!entered_at(&cfg.graph, &vec![0, 1, 2], 0));
}

#[test]
fn node_count_and_contains_node_follow_the_graph() {
    let cfg = graph(&["A", "B"], &[(0, 1, "")], 0);
    assert_eq!(cfg.node_count(), 2);
    assert!(cfg.contains_node(0));
    assert!(cfg.contains_node(1));
    assert!(!cfg.contains_node(2));
    assert!(!cfg.contains_node(usize::MAX));
}

#[test]
fn add_node_adds_a_node_without_edges() {
    let mut cfg = graph(&["A", "B"], &[(0, 1, "x")], 0);
    let n = cfg.add_node(block("C")).unwrap();
    assert_eq!(n, 2);
    assert_eq!(cfg.node_count(), 3);
    assert_eq!(cfg.graph[NodeIndex::new(n)], block("C"));
    assert_eq!(cfg.graph.edge_count(), 1);
    assert_eq!(cfg.graph.neighbors(NodeIndex::new(n)).count(), 0);
    assert_eq!(cfg.entry, 0);
}

#[test]
fn add_edge_joins_two_nodes() {
    let mut cfg = graph(&["A", "B"], &[(0, 1, "x")], 0);
    let e = cfg.add_edge(1, 0, cond("back")).unwrap();
    assert_eq!(cfg.graph.edge_count(), 2);
    assert_eq!(
        cfg.graph.edge_endpoints(EdgeIndex::new(e)),
        Some((NodeIndex::new(1), NodeIndex::new(0)))
    );
    assert_eq!(cfg.graph[EdgeIndex::new(e)], cond("back"));
    assert_eq!(cfg.node_count(), 2);
}

#[test]
fn add_edge_refuses_endpoints_that_are_no_nodes() {
    let mut cfg = graph(&["A", "B"], &[(0, 1, "x")], 0);
    assert_eq!(cfg.add_edge(0, 2, cond("")), Err(StructureError::MalformedInput));
    assert_eq!(cfg.add_edge(7, 1, cond("")), Err(StructureError::MalformedInput));
    assert_eq!(cfg.graph.edge_count(), 1);
}

#[test]
fn remove_node_takes_the_node_and_its_edges() {
    let mut cfg = graph(&["A", "B", "C"], &[(0, 1, "x"), (1, 2, "y"), (0, 2, "z")], 0);
    assert_eq!(cfg.remove_node(1), Some(block("B")));
    assert_eq!(cfg.node_count(), 2);
    assert!(!cfg.contains_node(1));
    assert_eq!(cfg.graph.edge_count(), 1);
    assert_eq!(
        cfg.graph.edge_endpoints(EdgeIndex::new(2)),
        Some((NodeIndex::new(0), NodeIndex::new(2)))
    );
    assert_eq!(cfg.graph[EdgeIndex::new(2)], cond("z"));
    // the other nodes keep their indices and payloads
    assert_eq!(cfg.graph[NodeIndex::new(0)], block("A"));
    assert_eq!(cfg.graph[NodeIndex::new(2)], block("C"));
}

#[test]
fn remove_node_leaves_the_entry_and_what_is_no_node() {
    let mut cfg = graph(&["A", "B"], &[(0, 1, "x")], 0);
    assert_eq!(cfg.remove_node(0), None);
    assert_eq!(cfg.remove_node(5), None);
    assert_eq!(cfg.node_count(), 2);
    assert_eq!(cfg.graph.edge_count(), 1);
}

#[test]
fn remove_edge_takes_one_edge() {
    let mut cfg = graph(&["A", "B"], &[(0, 1, "x"), (0, 1, "y")], 0);
    assert_eq!(cfg.remove_edge(0), Some(cond("x")));
    assert_eq!(cfg.graph.edge_count(), 1);
    assert_eq!(cfg.graph[EdgeIndex::new(1)], cond("y"));
    assert_eq!(cfg.remove_edge(0), None);
    assert_eq!(cfg.remove_edge(9), None);
    assert_eq!(cfg.remove_edge(usize::MAX), None);
    assert_eq!(cfg.graph.edge_count(), 1);
    assert_eq!(cfg.node_count(), 2);
}

#[test]
fn replace_payload_keeps_the_edges() {
    let mut cfg = graph(&["A", "B"], &[(0, 1, "x")], 0);
    assert_eq!(cfg.replace_payload(1, block("B2")), Some(block("B")));
    assert_eq!(cfg.graph[NodeIndex::new(1)], block("B2"));
    assert_eq!(cfg.graph.edge_count(), 1);
    assert_eq!(
        cfg.graph.edge_endpoints(EdgeIndex::new(0)),
        Some((NodeIndex::new(0), NodeIndex::new(1)))
    );
    assert_eq!(cfg.replace_payload(4, block("X")), None);
    assert_eq!(cfg.node_count(), 2);
}

#[test]
fn add_node_reuses_the_index_of_a_removed_node() {
    let mut cfg = graph(&["A", "B", "C"], &[(0, 1, ""), (1, 2, "")], 0);
    assert_eq!(cfg.remove_node(1), Some(block("B")));
    let n = cfg.add_node(block("D")).unwrap();
    assert!(cfg.contains_node(n));
    assert_eq!(cfg.graph[NodeIndex::new(n)], block("D"));
    assert_eq!(cfg.node_count(), 3);
    // room for every node, whatever index the new one took
    assert!(cfg.mk_node_set().len() > n);
}

#[test]
fn sese_region_gives_the_exit_and_the_size() {
    let cfg = graph(&["E", "H", "A", "B", "S"], &[(0, 1, ""), (0, 4, ""), (1, 2, "c"), (1, 3, "!c"), (2, 4, ""), (3, 4, "")], 0);
    assert_eq!(cfg.sese_region(1), Some((4, 3)));
    assert_eq!(cfg.sese_region(0), None);
    assert_eq!(cfg.sese_region(2), None);
    assert_eq!(cfg.sese_region(11), None);
}

#[test]
fn new_with_ids_tells_the_index_of_every_node_and_edge() {
    let nodes = vec![block("A"), block("B"), block("C")];
    let edges = vec![(0, 1, cond("x")), (1, 2, cond("y")), (0, 2, cond("z"))];
    let (cfg, ids, eids) = ControlFlowGraph::new_with_ids(nodes, edges, 1).unwrap();
    assert_eq!(ids.len(), 3);
    assert_eq!(eids.len(), 3);
    assert_eq!(cfg.entry, ids[1]);
    assert_eq!(cfg.graph[NodeIndex::new(ids[0])], block("A"));
    assert_eq!(cfg.graph[NodeIndex::new(ids[1])], block("B"));
    assert_eq!(cfg.graph[NodeIndex::new(ids[2])], block("C"));
    assert_eq!(
        cfg.graph.edge_endpoints(EdgeIndex::new(eids[2])),
        Some((NodeIndex::new(ids[0]), NodeIndex::new(ids[2])))
    );
    assert_eq!(cfg.graph[EdgeIndex::new(eids[2])], cond("z"));
    let refused = ControlFlowGraph::new_with_ids(vec![block("A")], vec![(0, 1, cond(""))], 0);
    assert_eq!(refused.err(), Some(StructureError::MalformedInput));
}

#[test]
fn dfs_of_a_triangle_without_cycle_lists_no_edge() {
    // 0 -> 1, 1 -> 2, 0 -> 2
    let cfg = graph(&["A", "B", "C"], &[(0, 1, ""), (1, 2, ""), (0, 2, "")], 0);
    let (backedges, postorder) = cfg.do_dfs();
    assert!(backedges.is_empty());
    assert_eq!(postorder, vec![2, 1, 0]);
}

#[test]
fn dfs_enters_every_node_from_one_that_finishes_later() {
    let cfg = graph(
        &["E", "A", "B", "C", "X"],
        &[(0, 1, ""), (0, 2, ""), (1, 2, ""), (2, 3, ""), (3, 1, ""), (3, 2, ""), (3, 4, "")],
        0,
    );
    let (backedges, postorder) = cfg.do_dfs();
    let at = |n: usize| postorder.iter().position(|x| *x == n).unwrap();
    let edges = [(0, 1), (0, 2), (1, 2), (2, 3), (3, 1), (3, 2), (3, 4)];
    for n in 1..5 {
        assert!(edges.iter().any(|(a, b)| *b == n && at(*a) > at(n)));
    }
    // a listed edge closes a cycle: its target reaches its source
    for (target, list) in &backedges {
        for e in list {
            let (src, dst) = edges[*e];
            assert_eq!(dst, *target);
            assert!(at(src) <= at(dst));
        }
    }
}
