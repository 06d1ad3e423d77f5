use dag::{Dag, DagError, Node};

fn scenario_a() -> (Dag<u32>, Vec<usize>) {
    let mut dag: Dag<u32> = Dag::new();
    let ids: Vec<usize> = (1..=5).map(|v| dag.add_node(v)).collect();
    let edges = [(0, 1), (0, 2), (0, 3), (0, 4), (1, 3), (2, 3), (2, 4), (3, 4)];
    for (p, c) in edges {
        dag.add_edge(ids[p], ids[c]).unwrap();
    }
    (dag, ids)
}

fn has_edge(dag: &Dag<u32>, p: usize, c: usize) -> bool {
    dag.nodes.get(p).unwrap().children.contains(&c)
}

#[test]
fn test_transitive_reduce() {
    let mut dag: Dag<u32> = Dag::new();

    let node1 = dag.add_node(1);
    let node2 = dag.add_node(2);
    let node3 = dag.add_node(3);
    let node4 = dag.add_node(4);
    let node5 = dag.add_node(5);

    dag.add_edge(node1, node2).unwrap();
    dag.add_edge(node1, node3).unwrap();
    dag.add_edge(node1, node4).unwrap();
    dag.add_edge(node1, node5).unwrap();

    dag.add_edge(node2, node4).unwrap();
    dag.add_edge(node3, node4).unwrap();
    dag.add_edge(node3, node5).unwrap();
    dag.add_edge(node4, node5).unwrap();

    assert_eq!(dag.count_edges(), 8);
    assert!(dag.nodes.get(node1).unwrap().children.contains(&node4));
    assert!(dag.nodes.get(node1).unwrap().children.contains(&node5));
    assert!(dag.nodes.get(node3).unwrap().children.contains(&node5));

    dag.transitive_reduce();

    assert_eq!(dag.count_edges(), 5);
    assert!(!dag.nodes.get(node1).unwrap().children.contains(&node4));
    assert!(!dag.nodes.get(node1).unwrap().children.contains(&node5));
    assert!(!dag.nodes.get(node3).unwrap().children.contains(&node5));
}

#[test]
fn test_cycle_check() {
    let mut good_dag: Dag<u32> = Dag::new();

    let node1 = good_dag.add_node(1);
    let node2 = good_dag.add_node(2);
    let node3 = good_dag.add_node(3);
    let node4 = good_dag.add_node(4);

    good_dag.add_edge(node1, node2).unwrap();
    good_dag.add_edge(node1, node3).unwrap();
    good_dag.add_edge(node2, node4).unwrap();
    good_dag.add_edge(node3, node4).unwrap();

    assert!(!good_dag.cycle_check());

    let mut bad_dag: Dag<u32> = Dag::new();

    let node1 = bad_dag.add_node(1);
    let node2 = bad_dag.add_node(2);
    let node3 = bad_dag.add_node(3);
    let node4 = bad_dag.add_node(4);

    bad_dag.add_edge(node1, node2).unwrap();
    bad_dag.add_edge(node1, node3).unwrap();
    bad_dag.add_edge(node2, node4).unwrap();
    bad_dag.add_edge(node4, node3).unwrap();
    bad_dag.add_edge(node3, node2).unwrap();

    assert!(bad_dag.cycle_check());
}

#[test]
fn node_new_has_no_children() {
    let node: Node<u32> = Node::new(7);
    assert_eq!(node.elem, 7);
    assert!(node.children.is_empty());
}

#[test]
fn new_and_default_are_empty() {
    let dag: Dag<u32> = Dag::new();
    assert!(dag.nodes.is_empty());
    assert!(dag.roots.is_empty());
    assert_eq!(dag.count_edges(), 0);
    assert!(!dag.cycle_check());
    let other: Dag<u32> = Dag::default();
    assert!(other.nodes.is_empty());
    assert!(other.roots.is_empty());
}

#[test]
fn add_node_hands_out_fresh_ids_and_roots() {
    let mut dag: Dag<u32> = Dag::new();
    let a = dag.add_node(4);
    let b = dag.add_node(4);
    assert_eq!(a, 0);
    assert_eq!(b, 1);
    assert_eq!(dag.nodes.len(), 2);
    assert!(dag.roots.contains(&a));
    assert!(dag.roots.contains(&b));
    dag.add_edge(a, b).unwrap();
    assert!(!dag.roots.contains(&b));
    assert!(dag.roots.contains(&a));
}

#[test]
fn add_edge_twice_keeps_one_edge() {
    let mut dag: Dag<u32> = Dag::new();
    let a = dag.add_node(1);
    let b = dag.add_node(2);
    dag.add_edge(a, b).unwrap();
    dag.add_edge(a, b).unwrap();
    assert_eq!(dag.nodes[a].children.len(), 1);
    assert_eq!(dag.count_edges(), 1);
}

#[test]
fn add_edge_unknown_parent_is_refused() {
    let mut dag: Dag<u32> = Dag::new();
    let a = dag.add_node(1);
    assert_eq!(dag.add_edge(5, a), Err(DagError::UnknownNode(5)));
    assert_eq!(dag.nodes.len(), 1);
    assert!(dag.nodes[a].children.is_empty());
    assert!(dag.roots.contains(&a));
}

#[test]
fn add_edge_unknown_child_is_refused() {
    let mut dag: Dag<u32> = Dag::new();
    let a = dag.add_node(1);
    assert_eq!(dag.add_edge(a, 9), Err(DagError::UnknownNode(9)));
    assert_eq!(dag.nodes.len(), 1);
    assert!(dag.nodes[a].children.is_empty());
    assert!(dag.roots.contains(&a));
    assert_eq!(dag.add_edge(3, 9), Err(DagError::UnknownNode(3)));
}

#[test]
fn add_node_with_children_links_each_child() {
    let mut dag: Dag<u32> = Dag::new();
    let a = dag.add_node(1);
    let b = dag.add_node(2);
    let top = dag.add_node_with_children(0, vec![a, b]).unwrap();
    assert_eq!(top, 2);
    assert!(has_edge(&dag, top, a));
    assert!(has_edge(&dag, top, b));
    assert!(dag.roots.contains(&top));
    assert!(!dag.roots.contains(&a));
    assert!(!dag.roots.contains(&b));
    assert_eq!(dag.count_edges(), 2);
}

#[test]
fn add_node_with_children_unknown_child_changes_nothing() {
    let mut dag: Dag<u32> = Dag::new();
    let a = dag.add_node(1);
    assert_eq!(
        dag.add_node_with_children(0, vec![a, 4]),
        Err(DagError::UnknownNode(4))
    );
    assert_eq!(dag.nodes.len(), 1);
    assert!(dag.roots.contains(&a));
    assert!(dag.nodes[a].children.is_empty());
}

#[test]
fn count_edges_counts_shared_descendants_once() {
    let mut dag: Dag<u32> = Dag::new();
    let n: Vec<usize> = (0..4).map(|v| dag.add_node(v)).collect();
    dag.add_edge(n[0], n[1]).unwrap();
    dag.add_edge(n[0], n[2]).unwrap();
    dag.add_edge(n[1], n[3]).unwrap();
    dag.add_edge(n[2], n[3]).unwrap();
    assert_eq!(dag.count_edges(), 4);
}

#[test]
fn count_edges_equals_edge_total_on_chain() {
    let mut dag: Dag<u32> = Dag::new();
    let n: Vec<usize> = (0..6).map(|v| dag.add_node(v)).collect();
    for k in 0..5 {
        dag.add_edge(n[k], n[k + 1]).unwrap();
    }
    assert_eq!(dag.count_edges(), 5);
}

#[test]
fn count_edges_skips_nodes_no_root_reaches() {
    let mut dag: Dag<u32> = Dag::new();
    let a = dag.add_node(1);
    let b = dag.add_node(2);
    let c = dag.add_node(3);
    let d = dag.add_node(4);
    dag.add_edge(a, b).unwrap();
    dag.add_edge(c, d).unwrap();
    dag.add_edge(d, c).unwrap();
    assert_eq!(dag.count_edges(), 1);
    assert!(!dag.cycle_check());
}

#[test]
fn count_edges_ends_on_a_reachable_cycle() {
    let mut dag: Dag<u32> = Dag::new();
    let a = dag.add_node(1);
    let b = dag.add_node(2);
    let c = dag.add_node(3);
    dag.add_edge(a, b).unwrap();
    dag.add_edge(b, c).unwrap();
    dag.add_edge(c, b).unwrap();
    assert_eq!(dag.count_edges(), 3);
    assert!(dag.cycle_check());
}

#[test]
fn cycle_check_finds_self_loop_below_root() {
    let mut dag: Dag<u32> = Dag::new();
    let a = dag.add_node(1);
    let b = dag.add_node(2);
    dag.add_edge(a, b).unwrap();
    assert!(!dag.cycle_check());
    dag.add_edge(b, b).unwrap();
    assert!(dag.cycle_check());
}

#[test]
fn cycle_check_ignores_revisited_finished_node() {
    let (dag, _) = scenario_a();
    assert!(!dag.cycle_check());
}

#[test]
fn scenario_a_reduction_keeps_expected_edges() {
    let (mut dag, n) = scenario_a();
    assert_eq!(dag.count_edges(), 8);
    dag.transitive_reduce();
    assert_eq!(dag.count_edges(), 5);
    let kept = [(0, 1), (0, 2), (1, 3), (2, 3), (3, 4)];
    for p in 0..5 {
        for c in 0..5 {
            assert_eq!(has_edge(&dag, n[p], n[c]), kept.contains(&(p, c)));
        }
    }
    assert!(dag.roots.contains(&n[0]));
    assert_eq!(dag.roots.len(), 1);
}

#[test]
fn reduction_twice_changes_nothing_more() {
    let (mut dag, n) = scenario_a();
    dag.transitive_reduce();
    let first: Vec<Vec<usize>> = n
        .iter()
        .map(|&i| dag.nodes[i].children.iter().copied().collect())
        .collect();
    let count = dag.count_edges();
    dag.transitive_reduce();
    let second: Vec<Vec<usize>> = n
        .iter()
        .map(|&i| dag.nodes[i].children.iter().copied().collect())
        .collect();
    assert_eq!(first, second);
    assert_eq!(dag.count_edges(), count);
}

#[test]
fn reduction_never_raises_the_count() {
    let mut dag: Dag<u32> = Dag::new();
    let n: Vec<usize> = (0..4).map(|v| dag.add_node(v)).collect();
    dag.add_edge(n[0], n[1]).unwrap();
    dag.add_edge(n[1], n[2]).unwrap();
    dag.add_edge(n[2], n[3]).unwrap();
    dag.add_edge(n[0], n[3]).unwrap();
    dag.add_edge(n[0], n[2]).unwrap();
    let before = dag.count_edges();
    dag.transitive_reduce();
    let after = dag.count_edges();
    assert_eq!(before, 5);
    assert_eq!(after, 3);
    assert!(after <= before);
}

#[test]
fn reduction_keeps_every_node_reachable() {
    let (mut dag, n) = scenario_a();
    dag.transitive_reduce();
    let mut seen = vec![false; n.len()];
    let mut stack = vec![n[0]];
    while let Some(u) = stack.pop() {
        if !seen[u] {
            seen[u] = true;
            stack.extend(dag.nodes[u].children.iter().copied());
        }
    }
    assert!(seen.iter().all(|&s| s));
}

#[test]
fn reduction_keeps_payloads_with_equal_values_apart() {
    let mut dag: Dag<u32> = Dag::new();
    let a = dag.add_node(9);
    let b = dag.add_node(9);
    let c = dag.add_node(9);
    dag.add_edge(a, b).unwrap();
    dag.add_edge(b, c).unwrap();
    dag.add_edge(a, c).unwrap();
    dag.transitive_reduce();
    assert!(has_edge(&dag, a, b));
    assert!(has_edge(&dag, b, c));
    assert!(!has_edge(&dag, a, c));
    assert_eq!(dag.nodes.len(), 3);
    assert!(dag.nodes.iter().all(|node| node.elem == 9));
}

#[test]
fn closing_edge_below_root_is_found() {
    let mut dag: Dag<u32> = Dag::new();
    let r = dag.add_node(0);
    let a = dag.add_node(1);
    let b = dag.add_node(2);
    dag.add_edge(r, a).unwrap();
    dag.add_edge(a, b).unwrap();
    assert!(!dag.cycle_check());
    dag.add_edge(b, a).unwrap();
    assert!(dag.cycle_check());
}

#[test]
fn cycle_through_the_only_root_leaves_no_root_to_search_from() {
    let mut dag: Dag<u32> = Dag::new();
    let a = dag.add_node(1);
    let b = dag.add_node(2);
    let c = dag.add_node(3);
    dag.add_edge(a, b).unwrap();
    dag.add_edge(b, c).unwrap();
    dag.add_edge(c, a).unwrap();
    assert!(dag.roots.is_empty());
    assert!(!dag.cycle_check());
    assert_eq!(dag.count_edges(), 0);
}
