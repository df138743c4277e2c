use ctrl_flow_struct::ast::{AstNode, Condition, SimpleCondition};
use ctrl_flow_struct::cfg::ControlFlowGraph;
use ctrl_flow_struct::error::StructureError;

/// A small linear congruential generator, so that the graphs are the same on
/// every run.
struct Lcg(u64);

impl Lcg {
    fn next(&mut self, bound: usize) -> usize {
        self.0 = self.0.wrapping_mul(6364136223846793005).wrapping_add(1442695040888963407);
        ((self.0 >> 33) as usize) % bound
    }
}

fn random_edges(rng: &mut Lcg, n: usize) -> Vec<(usize, usize)> {
    let m = rng.next(2 * n + 2);
    (0..m).map(|_| (rng.next(n), rng.next(n))).collect()
}

fn build(n: usize, edges: &[(usize, usize)]) -> ControlFlowGraph {
    let nodes: Vec<AstNode> = (0..n).map(|i| AstNode::BasicBlock(format!("b{}", i))).collect();
    let edges: Vec<(usize, usize, SimpleCondition)> = edges
        .iter()
        .enumerate()
        .map(|(k, (a, b))| (*a, *b, SimpleCondition(format!("c{}", k))))
        .collect();
    let (cfg, ids, eids) = ControlFlowGraph::new_with_ids(nodes, edges, 0).unwrap();
    // the tests below name nodes and edges by their position
    assert_eq!(ids, (0..n).collect::<Vec<usize>>());
    assert_eq!(eids, (0..eids.len()).collect::<Vec<usize>>());
    cfg
}

/// The nodes that `from` reaches without passing through `avoid`.
fn reach(n: usize, edges: &[(usize, usize)], from: usize, avoid: Option<usize>) -> Vec<bool> {
    let mut seen = vec![false; n];
    if Some(from) == avoid {
        return seen;
    }
    let mut stack = vec![from];
    seen[from] = true;
    while let Some(u) = stack.pop() {
        for (a, b) in edges {
            if *a == u && !seen[*b] && Some(*b) != avoid {
                seen[*b] = true;
                stack.push(*b);
            }
        }
    }
    seen
}

/// No conjunction and no disjunction in `c` has fewer than two operands.
fn operands_ok(c: &Condition) -> bool {
    match c {
        Condition::Simple(_) => true,
        Condition::And(ops) | Condition::Or(ops) => ops.len() >= 2 && ops.iter().all(operands_ok),
    }
}

fn live_edges(cfg: &ControlFlowGraph) -> Vec<(usize, usize, String)> {
    let mut out: Vec<(usize, usize, String)> = cfg
        .graph
        .edge_indices()
        .map(|e| {
            let (a, b) = cfg.graph.edge_endpoints(e).unwrap();
            (a.index(), b.index(), cfg.graph[e].0.clone())
        })
        .collect();
    out.sort();
    out
}

fn live_pairs(cfg: &ControlFlowGraph) -> Vec<(usize, usize)> {
    live_edges(cfg).into_iter().map(|(a, b, _)| (a, b)).collect()
}

#[test]
fn walk_lists_what_the_entry_reaches_and_tells_back_edges_by_position() {
    let mut rng = Lcg(1);
    for _ in 0..400 {
        let n = 1 + rng.next(8);
        let edges = random_edges(&mut rng, n);
        let cfg = build(n, &edges);
        let (backedges, postorder) = cfg.do_dfs();
        let reached = reach(n, &edges, 0, None);
        let mut listed = vec![false; n];
        for x in &postorder {
            assert!(!listed[*x]);
            listed[*x] = true;
        }
        assert_eq!(listed, reached);
        assert_eq!(*postorder.last().unwrap(), 0);
        let at = |x: usize| postorder.iter().position(|y| *y == x).unwrap();
        for (k, (a, b)) in edges.iter().enumerate() {
            if reached[*a] {
                let recorded = backedges.get(b).map_or(false, |l| l.contains(&k));
                assert_eq!(recorded, at(*b) >= at(*a));
            }
        }
        for (target, list) in &backedges {
            assert!(!list.is_empty());
            for (i, e) in list.iter().enumerate() {
                assert_eq!(edges[*e].1, *target);
                assert!(reached[edges[*e].0]);
                assert!(!list[..i].contains(e));
                // a listed edge closes a cycle
                assert!(reach(n, &edges, *target, None)[edges[*e].0]);
            }
        }
        // every node but the entry is entered from a node that finishes later
        for x in &postorder {
            if *x != 0 {
                assert!(edges.iter().any(|(a, b)| b == x && reached[*a] && at(*a) > at(*x)));
            }
        }
    }
}

#[test]
fn dominated_nodes_are_those_cut_off_without_the_header() {
    let mut rng = Lcg(2);
    for _ in 0..300 {
        let n = 1 + rng.next(7);
        let edges = random_edges(&mut rng, n);
        let cfg = build(n, &edges);
        let reached = reach(n, &edges, 0, None);
        for h in 0..n {
            let without = reach(n, &edges, 0, Some(h));
            let set = cfg.dominates_set(h);
            assert_eq!(set.len(), n);
            for x in 0..n {
                assert_eq!(set.contains(x), reached[x] && !without[x]);
            }
            assert_eq!(set.contains(h), reached[h]);
        }
    }
}

#[test]
fn successors_are_the_targets_of_the_edges_out_of_the_set() {
    let mut rng = Lcg(3);
    for _ in 0..300 {
        let n = 1 + rng.next(7);
        let edges = random_edges(&mut rng, n);
        let cfg = build(n, &edges);
        let mut set = cfg.mk_node_set();
        let mut inside = vec![false; n];
        for x in 0..n {
            if rng.next(2) == 1 {
                set.insert(x);
                inside[x] = true;
            }
        }
        let succs = cfg.successors_of_set(&set);
        for b in 0..n {
            let want = edges.iter().any(|(a, t)| inside[*a] && *t == b);
            assert_eq!(succs.contains(b), want);
        }
    }
}

#[test]
fn single_exit_is_found_exactly_where_there_is_one() {
    let mut rng = Lcg(4);
    for _ in 0..300 {
        let n = 1 + rng.next(7);
        let edges = random_edges(&mut rng, n);
        let cfg = build(n, &edges);
        let reached = reach(n, &edges, 0, None);
        for h in 0..n {
            let without = reach(n, &edges, 0, Some(h));
            let region: Vec<bool> = (0..n).map(|x| reached[x] && !without[x]).collect();
            let size = region.iter().filter(|x| **x).count();
            let mut exits: Vec<usize> = edges
                .iter()
                .filter(|(a, b)| region[*a] && !region[*b])
                .map(|(_, b)| *b)
                .collect();
            exits.sort();
            exits.dedup();
            let want = if size > 1 && exits.len() == 1 { Some((exits[0], size)) } else { None };
            assert_eq!(cfg.sese_region(h), want);
            assert_eq!(cfg.sese_exit(h), want.map(|w| w.0));
        }
    }
}

#[test]
fn collapse_takes_out_the_interior_and_keeps_the_rest() {
    let mut rng = Lcg(5);
    let mut collapsed = 0;
    for _ in 0..600 {
        let n = 2 + rng.next(6);
        let edges = random_edges(&mut rng, n);
        let mut cfg = build(n, &edges);
        let h = rng.next(n);
        let s = rng.next(n);
        let order = if h != s { cfg.region_walk(h, s) } else { vec![] };
        let before = live_edges(&cfg);
        let count = cfg.node_count();
        let done = cfg.structure_acyclic_sese_region(h, s);
        if !done {
            assert_eq!(live_edges(&cfg), before);
            assert_eq!(cfg.node_count(), count);
            continue;
        }
        collapsed += 1;
        assert!(order.len() >= 2);
        assert_eq!(order[0], h);
        assert!(!order.contains(&s));
        // node count goes down by the size of the interior
        assert_eq!(cfg.node_count(), count - (order.len() - 1));
        for x in 0..n {
            assert_eq!(cfg.contains_node(x), !order[1..].contains(&x));
        }
        assert!(cfg.contains_node(cfg.entry));
        // the edges that touch no interior node are all there, and one more
        let interior = &order[1..];
        let kept: Vec<(usize, usize, String)> = before
            .iter()
            .filter(|(a, b, _)| !interior.contains(a) && !interior.contains(b))
            .cloned()
            .collect();
        let after = live_edges(&cfg);
        assert_eq!(after.len(), kept.len() + 1);
        for e in &kept {
            assert!(after.contains(e));
        }
        let added: Vec<&(usize, usize, String)> = after
            .iter()
            .filter(|e| {
                after.iter().filter(|x| x == e).count() > kept.iter().filter(|x| x == e).count()
            })
            .collect();
        assert!(!added.is_empty());
        assert_eq!((added[0].0, added[0].1), (h, s));
        // the header holds one part for each node of the region
        match &cfg.graph[petgraph::graph::NodeIndex::new(h)] {
            AstNode::Sequence(parts) => {
                assert_eq!(parts.len(), order.len());
                assert_eq!(
                    parts[0],
                    AstNode::Cond(
                        Condition::Simple(SimpleCondition(String::new())),
                        Box::new(AstNode::BasicBlock(format!("b{}", h))),
                        None
                    )
                );
                for (k, part) in parts.iter().enumerate() {
                    match part {
                        AstNode::Cond(guard, body, None) => {
                            assert!(operands_ok(guard));
                            assert_eq!(**body, AstNode::BasicBlock(format!("b{}", order[k])));
                        }
                        other => panic!("unexpected part: {:?}", other),
                    }
                }
            }
            other => panic!("unexpected payload: {:?}", other),
        }
    }
    assert!(collapsed > 20);
}

#[test]
fn pass_shrinks_the_graph_and_keeps_it_reachable() {
    let mut rng = Lcg(6);
    let mut progressed = 0;
    for _ in 0..400 {
        let n = 2 + rng.next(7);
        // a chain keeps every node reachable; random edges come on top
        let mut edges: Vec<(usize, usize)> = (1..n).map(|i| (rng.next(i), i)).collect();
        edges.extend(random_edges(&mut rng, n));
        let mut cfg = build(n, &edges);
        let mut count = cfg.node_count();
        loop {
            let before = live_edges(&cfg);
            let progress = cfg.structure_pass();
            assert_eq!(cfg.entry, 0);
            assert!(cfg.contains_node(0));
            assert_eq!(progress, cfg.node_count() < count);
            if !progress {
                assert_eq!(live_edges(&cfg), before);
                break;
            }
            progressed += 1;
            assert!(cfg.node_count() >= 2);
            count = cfg.node_count();
            let (_, postorder) = cfg.do_dfs();
            assert_eq!(postorder.len(), count);
            let pairs = live_pairs(&cfg);
            for (a, b) in pairs {
                assert!(cfg.contains_node(a) && cfg.contains_node(b));
            }
        }
    }
    assert!(progressed > 20);
}

#[test]
fn whole_graph_outcome_depends_on_reachability_and_size() {
    let mut rng = Lcg(7);
    for _ in 0..400 {
        let n = 1 + rng.next(6);
        let edges = random_edges(&mut rng, n);
        let cfg = build(n, &edges);
        let reached = reach(n, &edges, 0, None);
        let want = if reached.iter().any(|r| !*r) {
            Err(StructureError::MalformedInput)
        } else if n == 1 {
            Ok(AstNode::BasicBlock("b0".to_owned()))
        } else {
            Err(StructureError::StructuringStuck)
        };
        assert_eq!(cfg.structure_whole(), want);
    }
}
