use ctrl_flow_struct::ast::{AstNode, Condition, SimpleCondition};
use ctrl_flow_struct::cfg::ControlFlowGraph;
use ctrl_flow_struct::error::StructureError;
use petgraph::graph::NodeIndex;
use petgraph::visit::EdgeRef;

fn block(label: &str) -> AstNode {
    AstNode::BasicBlock(label.to_owned())
}

fn cond(label: &str) -> SimpleCondition {
    SimpleCondition(label.to_owned())
}

fn simple(label: &str) -> Condition {
    Condition::Simple(cond(label))
}

fn when(label: &str, body: AstNode) -> AstNode {
    AstNode::Cond(simple(label), Box::new(body), None)
}

/// A part that is reached unconditionally: guarded by the empty label.
fn always(body: AstNode) -> AstNode {
    when("", body)
}

fn graph(labels: &[&str], edges: &[(usize, usize, &str)], entry: usize) -> ControlFlowGraph {
    let nodes: Vec<AstNode> = labels.iter().map(|l| block(l)).collect();
    let edges: Vec<(usize, usize, SimpleCondition)> =
        edges.iter().map(|(a, b, l)| (*a, *b, cond(l))).collect();
    let count = nodes.len();
    let (cfg, ids, _) = ControlFlowGraph::new_with_ids(nodes, edges, entry).unwrap();
    // the tests below name nodes by their position
    assert_eq!(ids, (0..count).collect::<Vec<usize>>());
    cfg
}

fn payload(cfg: &ControlFlowGraph, n: usize) -> &AstNode {
    &cfg.graph[NodeIndex::new(n)]
}

/// All edges as (source, target, label), sorted.
fn edge_list(cfg: &ControlFlowGraph) -> Vec<(usize, usize, String)> {
    let mut out: Vec<(usize, usize, String)> = Vec::new();
    for n in cfg.graph.node_indices() {
        for e in cfg.graph.edges(n) {
            out.push((e.source().index(), e.target().index(), e.weight().0.clone()));
        }
    }
    out.sort();
    out
}

fn node_list(cfg: &ControlFlowGraph) -> Vec<usize> {
    cfg.graph.node_indices().map(|n| n.index()).collect()
}

fn diamond() -> ControlFlowGraph {
    // H -> B is added before H -> A so that the walk finishes B first
    graph(&["H", "A", "B", "S"], &[(0, 2, "!c"), (0, 1, "c"), (1, 3, ""), (2, 3, "")], 0)
}

#[test]
fn straight_line_region_folds_into_a_sequence_of_trivially_guarded_parts() {
    let mut cfg = graph(&["A", "B", "C", "D"], &[(0, 1, ""), (1, 2, ""), (2, 3, "")], 0);
    assert!(cfg.structure_acyclic_sese_region(0, 3));
    assert_eq!(payload(&cfg, 0), &AstNode::Sequence(vec![always(block("A")), always(block("B")), always(block("C"))]));
    assert_eq!(node_list(&cfg), vec![0, 3]);
    assert_eq!(edge_list(&cfg), vec![(0, 3, String::new())]);
}

#[test]
fn straight_line_of_three_folds_up_to_its_last_node() {
    let mut cfg = graph(&["A", "B", "C"], &[(0, 1, ""), (1, 2, "")], 0);
    assert!(cfg.structure_acyclic_sese_region(0, 2));
    assert_eq!(payload(&cfg, 0), &AstNode::Sequence(vec![always(block("A")), always(block("B"))]));
    assert_eq!(payload(&cfg, 2), &block("C"));
    assert_eq!(edge_list(&cfg), vec![(0, 2, String::new())]);
}

#[test]
fn straight_line_has_no_region_with_an_exit_and_is_stuck() {
    let cfg = graph(&["A", "B", "C"], &[(0, 1, ""), (1, 2, "")], 0);
    assert_eq!(cfg.sese_exit(0), None);
    assert_eq!(cfg.sese_exit(1), None);
    assert_eq!(cfg.sese_exit(2), None);
    assert_eq!(cfg.structure_whole(), Err(StructureError::StructuringStuck));
}

#[test]
fn diamond_reaching_conditions_are_the_branch_conditions() {
    let cfg = diamond();
    let conds = cfg.reaching_conditions(&vec![0, 1, 2, 3]);
    assert_eq!(conds.len(), 4);
    assert_eq!(conds[0], None);
    assert_eq!(conds[1], Some(simple("c")));
    assert_eq!(conds[2], Some(simple("!c")));
    match &conds[3] {
        Some(Condition::Or(alts)) => {
            assert_eq!(alts.len(), 2);
            assert!(alts.contains(&simple("c")));
            assert!(alts.contains(&simple("!c")));
        }
        other => panic!("unexpected reaching condition of the join: {:?}", other),
    }
}

#[test]
fn diamond_header_collapses_to_the_two_guarded_branches() {
    let mut cfg = diamond();
    assert!(cfg.structure_acyclic_sese_region(0, 3));
    assert_eq!(
        payload(&cfg, 0),
        &AstNode::Sequence(vec![
            always(block("H")),
            when("c", block("A")),
            when("!c", block("B")),
        ])
    );
    assert_eq!(payload(&cfg, 3), &block("S"));
    assert_eq!(node_list(&cfg), vec![0, 3]);
    assert_eq!(edge_list(&cfg), vec![(0, 3, String::new())]);
}

#[test]
fn diamond_alone_has_no_region_with_an_exit_and_is_stuck() {
    let cfg = diamond();
    assert_eq!(cfg.sese_exit(0), None);
    assert_eq!(cfg.structure_whole(), Err(StructureError::StructuringStuck));
}

#[test]
fn pass_collapses_a_diamond_whose_join_is_reached_otherwise_too() {
    let mut cfg = graph(
        &["E", "H", "A", "B", "S"],
        &[(0, 1, "e"), (0, 4, "!e"), (1, 3, "!c"), (1, 2, "c"), (2, 4, ""), (3, 4, "")],
        0,
    );
    assert!(cfg.structure_pass());
    assert_eq!(
        payload(&cfg, 1),
        &AstNode::Sequence(vec![
            always(block("H")),
            when("c", block("A")),
            when("!c", block("B")),
        ])
    );
    assert_eq!(node_list(&cfg), vec![0, 1, 4]);
    assert_eq!(
        edge_list(&cfg),
        vec![(0, 1, "e".to_owned()), (0, 4, "!e".to_owned()), (1, 4, String::new())]
    );
    // nothing is left to collapse
    assert!(!cfg.structure_pass());
    assert_eq!(node_list(&cfg), vec![0, 1, 4]);
    assert_eq!(cfg.structure_whole(), Err(StructureError::StructuringStuck));
}

#[test]
fn collapse_keeps_the_edges_that_come_in_from_outside() {
    let mut cfg = graph(
        &["E", "X", "H", "A", "S"],
        &[(0, 1, "p"), (0, 2, "q"), (1, 2, "r"), (1, 4, "s"), (2, 3, ""), (3, 4, "")],
        0,
    );
    let before = edge_list(&cfg);
    assert!(cfg.structure_acyclic_sese_region(2, 4));
    let after = edge_list(&cfg);
    for e in before.iter().filter(|e| e.0 != 2 && e.0 != 3) {
        assert!(after.contains(e));
    }
    assert_eq!(
        after,
        vec![
            (0, 1, "p".to_owned()),
            (0, 2, "q".to_owned()),
            (1, 2, "r".to_owned()),
            (1, 4, "s".to_owned()),
            (2, 4, String::new()),
        ]
    );
    assert_eq!(payload(&cfg, 2), &AstNode::Sequence(vec![always(block("H")), always(block("A"))]));
}

#[test]
fn collapse_takes_nodes_out_and_adds_none() {
    let mut cfg = diamond();
    let before = cfg.graph.node_count();
    assert!(cfg.structure_acyclic_sese_region(0, 3));
    assert_eq!(cfg.graph.node_count(), before - 2);
    let mut chain = graph(&["A", "B", "C"], &[(0, 1, ""), (1, 2, "")], 0);
    assert!(chain.structure_acyclic_sese_region(0, 2));
    assert_eq!(chain.graph.node_count(), 2);
}

#[test]
fn exit_edge_carries_a_single_exit_predicate() {
    let mut cfg = graph(&["H", "A", "S"], &[(0, 1, ""), (1, 2, "done")], 0);
    assert!(cfg.structure_acyclic_sese_region(0, 2));
    assert_eq!(edge_list(&cfg), vec![(0, 2, "done".to_owned())]);
    assert_eq!(payload(&cfg, 0), &AstNode::Sequence(vec![always(block("H")), always(block("A"))]));
}

#[test]
fn nested_conditions_are_conjoined_along_the_path() {
    // H -c-> A -d-> B -> S, A -!d-> S, H -!c-> S
    let mut cfg = graph(
        &["H", "A", "B", "S"],
        &[(0, 3, "!c"), (0, 1, "c"), (1, 3, "!d"), (1, 2, "d"), (2, 3, "")],
        0,
    );
    assert!(cfg.structure_acyclic_sese_region(0, 3));
    assert_eq!(
        payload(&cfg, 0),
        &AstNode::Sequence(vec![
            always(block("H")),
            when("c", block("A")),
            AstNode::Cond(
                Condition::And(vec![simple("c"), simple("d")]),
                Box::new(block("B")),
                None
            ),
        ])
    );
}

#[test]
fn collapsed_payloads_nest() {
    let mut cfg = graph(
        &["A", "B", "C", "D", "E"],
        &[(0, 1, ""), (1, 2, "k"), (2, 3, ""), (3, 4, "")],
        0,
    );
    assert!(cfg.structure_acyclic_sese_region(1, 3));
    assert!(cfg.structure_acyclic_sese_region(0, 4));
    assert_eq!(
        payload(&cfg, 0),
        &AstNode::Sequence(vec![
            always(block("A")),
            always(AstNode::Sequence(vec![always(block("B")), when("k", block("C"))])),
            when("k", block("D")),
        ])
    );
    assert_eq!(node_list(&cfg), vec![0, 4]);
    // the exit of the outer region is reached under the same condition
    assert_eq!(edge_list(&cfg), vec![(0, 4, "k".to_owned())]);
}

#[test]
fn region_is_not_collapsed_when_header_and_exit_coincide() {
    let mut cfg = graph(&["A", "B"], &[(0, 1, "")], 0);
    assert!(!cfg.structure_acyclic_sese_region(0, 0));
    assert_eq!(node_list(&cfg), vec![0, 1]);
    assert_eq!(payload(&cfg, 0), &block("A"));
}

#[test]
fn region_is_not_collapsed_when_it_is_a_single_node() {
    let mut cfg = graph(&["A", "B"], &[(0, 1, "")], 0);
    assert!(!cfg.structure_acyclic_sese_region(0, 1));
    assert_eq!(edge_list(&cfg), vec![(0, 1, String::new())]);
}

#[test]
fn region_is_not_collapsed_for_indices_that_are_no_nodes() {
    let mut cfg = graph(&["A", "B", "C"], &[(0, 1, ""), (1, 2, "")], 0);
    assert!(!cfg.structure_acyclic_sese_region(9, 2));
    assert!(!cfg.structure_acyclic_sese_region(0, 9));
    assert_eq!(node_list(&cfg), vec![0, 1, 2]);
}

#[test]
fn region_is_not_collapsed_when_the_exit_is_not_entered_from_it() {
    // C is not reached from A or B
    let mut cfg = graph(&["A", "B", "C"], &[(0, 1, ""), (2, 0, "")], 2);
    assert!(!cfg.structure_acyclic_sese_region(0, 2));
    assert_eq!(node_list(&cfg), vec![0, 1, 2]);
}

#[test]
fn region_is_not_collapsed_when_it_would_swallow_the_entry() {
    // the walk from B runs through the entry A
    let mut cfg = graph(&["A", "B", "C"], &[(0, 1, ""), (1, 0, ""), (0, 2, "")], 0);
    assert!(!cfg.structure_acyclic_sese_region(1, 2));
    assert_eq!(node_list(&cfg), vec![0, 1, 2]);
}

#[test]
fn check_region_order_accepts_a_topological_order() {
    let cfg = diamond();
    assert!(cfg.check_region_order(0, 3, &vec![0, 1, 2]));
    assert!(cfg.check_region_order(0, 3, &vec![0, 2, 1]));
}

#[test]
fn check_region_order_refuses_what_cannot_be_collapsed() {
    let cfg = diamond();
    // too short
    assert!(!cfg.check_region_order(0, 3, &vec![0]));
    assert!(!cfg.check_region_order(0, 3, &vec![]));
    // does not start with the header
    assert!(!cfg.check_region_order(0, 3, &vec![1, 0, 2]));
    // holds a node twice
    assert!(!cfg.check_region_order(0, 3, &vec![0, 1, 1]));
    // holds the exit
    assert!(!cfg.check_region_order(0, 3, &vec![0, 1, 3]));
    // holds what is no node
    assert!(!cfg.check_region_order(0, 3, &vec![0, 1, 8]));
    // the exit is no node
    assert!(!cfg.check_region_order(0, 8, &vec![0, 1, 2]));
    // A is not entered from an earlier node
    assert!(!cfg.check_region_order(1, 3, &vec![1, 0]));
}

#[test]
fn collapse_region_folds_in_the_given_order() {
    let mut cfg = diamond();
    cfg.collapse_region(0, 3, &vec![0, 2, 1]);
    assert_eq!(
        payload(&cfg, 0),
        &AstNode::Sequence(vec![
            always(block("H")),
            when("!c", block("B")),
            when("c", block("A")),
        ])
    );
    assert_eq!(edge_list(&cfg), vec![(0, 3, String::new())]);
}

#[test]
fn single_node_graph_yields_its_payload() {
    let cfg = graph(&["only"], &[], 0);
    assert_eq!(cfg.structure_whole(), Ok(block("only")));
}

#[test]
fn single_node_with_a_self_loop_yields_its_payload() {
    let cfg = graph(&["only"], &[(0, 0, "again")], 0);
    assert_eq!(cfg.structure_whole(), Ok(block("only")));
}

#[test]
fn unreachable_node_is_malformed_input() {
    let cfg = graph(&["A", "B", "U"], &[(0, 1, ""), (2, 1, "")], 0);
    assert_eq!(cfg.structure_whole(), Err(StructureError::MalformedInput));
}

#[test]
fn two_entries_are_malformed_input() {
    let cfg = graph(&["A", "B"], &[], 0);
    assert_eq!(cfg.structure_whole(), Err(StructureError::MalformedInput));
}

#[test]
fn irreducible_loop_is_stuck() {
    // two entries into the cycle A <-> B
    let cfg = graph(&["E", "A", "B"], &[(0, 1, "p"), (0, 2, "!p"), (1, 2, ""), (2, 1, "")], 0);
    assert_eq!(cfg.structure_whole(), Err(StructureError::StructuringStuck));
}

#[test]
fn irreducible_loop_with_two_latches_is_stuck() {
    let cfg = graph(
        &["E", "A", "B", "C", "X"],
        &[
            (0, 1, "p"),
            (0, 2, "!p"),
            (1, 2, ""),
            (2, 3, ""),
            (3, 1, "again"),
            (3, 2, "more"),
            (3, 4, "out"),
        ],
        0,
    );
    assert_eq!(cfg.structure_whole(), Err(StructureError::StructuringStuck));
}

#[test]
fn pass_leaves_a_loop_header_alone() {
    let mut cfg = graph(
        &["E", "L", "B", "X"],
        &[(0, 1, ""), (1, 2, "go"), (2, 1, "again"), (1, 3, "stop"), (0, 3, "skip")],
        0,
    );
    // L dominates B and leaves only to X, but L is the target of a back edge
    assert_eq!(cfg.sese_exit(1), Some(3));
    assert!(!cfg.structure_pass());
    assert_eq!(node_list(&cfg), vec![0, 1, 2, 3]);
    assert_eq!(payload(&cfg, 1), &block("L"));
}

#[test]
fn region_walk_starts_with_the_header_and_stops_at_the_exit() {
    let cfg = diamond();
    assert_eq!(cfg.region_walk(0, 3), vec![0, 1, 2]);
    assert_eq!(cfg.region_walk(1, 3), vec![1]);
    let chain = graph(&["A", "B", "C", "D"], &[(0, 1, ""), (1, 2, ""), (2, 3, "")], 0);
    assert_eq!(chain.region_walk(0, 3), vec![0, 1, 2]);
    assert_eq!(chain.region_walk(1, 2), vec![1]);
    assert_eq!(chain.region_walk(0, 0), vec![0]);
}

#[test]
fn collapse_headed_by_collapses_what_the_node_dominates() {
    let mut cfg = graph(
        &["E", "H", "A", "B", "S"],
        &[(0, 1, "e"), (0, 4, "!e"), (1, 3, "!c"), (1, 2, "c"), (2, 4, ""), (3, 4, "")],
        0,
    );
    assert!(!cfg.collapse_headed_by(0));
    assert!(!cfg.collapse_headed_by(2));
    assert!(!cfg.collapse_headed_by(4));
    assert!(!cfg.collapse_headed_by(9));
    assert_eq!(node_list(&cfg), vec![0, 1, 2, 3, 4]);
    assert!(cfg.collapse_headed_by(1));
    assert_eq!(node_list(&cfg), vec![0, 1, 4]);
    assert_eq!(
        payload(&cfg, 1),
        &AstNode::Sequence(vec![
            always(block("H")),
            when("c", block("A")),
            when("!c", block("B")),
        ])
    );
    assert!(!cfg.collapse_headed_by(1));
}

#[test]
fn pass_keeps_every_node_reachable() {
    let mut cfg = graph(
        &["E", "H", "A", "B", "S", "T"],
        &[(0, 1, "e"), (0, 4, "!e"), (1, 3, "!c"), (1, 2, "c"), (2, 4, ""), (3, 4, ""), (4, 5, "")],
        0,
    );
    assert!(cfg.structure_pass());
    let (_, postorder) = cfg.do_dfs();
    assert_eq!(postorder.len(), cfg.node_count());
}

#[test]
fn pass_collapses_inner_regions_before_outer_ones() {
    // E -> P -> H -> {A, B} -> S -> Q -> X, with E -> X and P -> Q
    let mut cfg = graph(
        &["E", "P", "H", "A", "B", "S", "Q", "X"],
        &[
            (0, 7, "skip"),
            (0, 1, "go"),
            (1, 6, "short"),
            (1, 2, "long"),
            (2, 4, "!c"),
            (2, 3, "c"),
            (3, 5, ""),
            (4, 5, ""),
            (5, 6, ""),
            (6, 7, ""),
        ],
        0,
    );
    assert!(cfg.structure_pass());
    // H dominates A, B and S and leaves to Q; P dominates all those and Q
    assert_eq!(node_list(&cfg), vec![0, 1, 7]);
    let inner = AstNode::Sequence(vec![
        always(block("H")),
        when("c", block("A")),
        when("!c", block("B")),
        AstNode::Cond(
            Condition::Or(vec![simple("!c"), simple("c")]),
            Box::new(block("S")),
            None,
        ),
    ]);
    match payload(&cfg, 1) {
        AstNode::Sequence(parts) => {
            assert_eq!(parts.len(), 3);
            assert_eq!(parts[0], always(block("P")));
            assert_eq!(parts[1], AstNode::Cond(simple("long"), Box::new(inner), None));
            match &parts[2] {
                AstNode::Cond(Condition::Or(alts), body, None) => {
                    assert_eq!(**body, block("Q"));
                    assert_eq!(alts.len(), 2);
                    assert!(alts.contains(&simple("short")));
                    assert!(alts.contains(&simple("long")));
                }
                other => panic!("unexpected part for Q: {:?}", other),
            }
        }
        other => panic!("unexpected payload: {:?}", other),
    }
    assert_eq!(edge_list(&cfg), vec![(0, 1, "go".to_owned()), (0, 7, "skip".to_owned()), (1, 7, String::new())]);
}

#[test]
fn guard_of_a_node_with_one_way_in_is_the_predicate_itself() {
    // H -c-> A -> S and H -!c-> S
    let mut cfg = graph(&["H", "A", "S"], &[(0, 2, "!c"), (0, 1, "c"), (1, 2, "")], 0);
    assert!(cfg.structure_acyclic_sese_region(0, 2));
    assert_eq!(
        payload(&cfg, 0),
        &AstNode::Sequence(vec![always(block("H")), when("c", block("A"))])
    );
}

#[test]
fn header_part_is_wrapped_under_the_empty_label() {
    let mut cfg = graph(&["A", "B", "C"], &[(0, 1, "x"), (1, 2, "")], 0);
    assert!(cfg.structure_acyclic_sese_region(0, 2));
    match payload(&cfg, 0) {
        AstNode::Sequence(parts) => {
            assert_eq!(parts.len(), 2);
            assert_eq!(
                parts[0],
                AstNode::Cond(simple(""), Box::new(block("A")), None)
            );
            assert_eq!(parts[1], AstNode::Cond(simple("x"), Box::new(block("B")), None));
        }
        other => panic!("unexpected payload: {:?}", other),
    }
}

#[test]
fn pass_keeps_the_payloads_and_edges_outside_the_collapsed_region() {
    let mut cfg = graph(
        &["E", "H", "A", "B", "S", "T"],
        &[(0, 1, "e"), (0, 4, "!e"), (1, 3, "!c"), (1, 2, "c"), (2, 4, ""), (3, 4, ""), (4, 5, "t")],
        0,
    );
    assert!(cfg.structure_pass());
    assert_eq!(payload(&cfg, 0), &block("E"));
    assert_eq!(payload(&cfg, 4), &block("S"));
    assert_eq!(payload(&cfg, 5), &block("T"));
    let edges = edge_list(&cfg);
    assert!(edges.contains(&(0, 1, "e".to_owned())));
    assert!(edges.contains(&(0, 4, "!e".to_owned())));
    assert!(edges.contains(&(4, 5, "t".to_owned())));
}
