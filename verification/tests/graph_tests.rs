use bv_graph::DiGraph;

fn density_of(g: &DiGraph) -> f64 {
    let (num, den) = g.density_ratio();
    if den == 0 {
        0.0
    } else {
        num as f64 / den as f64
    }
}

#[test]
fn test_new_graph() {
    let g = DiGraph::new();
    assert_eq!(g.node_count(), 0);
    assert_eq!(g.edge_count(), 0);
}

#[test]
fn test_add_node_idempotent() {
    let mut g = DiGraph::new();
    let idx1 = g.add_node("bv-1");
    let idx2 = g.add_node("bv-1");
    assert_eq!(idx1, idx2);
    assert_eq!(g.node_count(), 1);
}

#[test]
fn test_add_edge_idempotent() {
    let mut g = DiGraph::new();
    let a = g.add_node("a");
    let b = g.add_node("b");
    g.add_edge(a, b);
    g.add_edge(a, b);
    assert_eq!(g.edge_count(), 1);
}

#[test]
fn test_degrees() {
    let mut g = DiGraph::new();
    let a = g.add_node("a");
    let b = g.add_node("b");
    let c = g.add_node("c");
    g.add_edge(a, b);
    g.add_edge(a, c);
    g.add_edge(b, c);

    assert_eq!(g.out_degree(a), 2);
    assert_eq!(g.out_degree(b), 1);
    assert_eq!(g.out_degree(c), 0);

    assert_eq!(g.in_degree(a), 0);
    assert_eq!(g.in_degree(b), 1);
    assert_eq!(g.in_degree(c), 2);
}

#[test]
fn test_density() {
    let mut g = DiGraph::new();
    assert_eq!(density_of(&g), 0.0);

    g.add_node("a");
    assert_eq!(density_of(&g), 0.0);

    let a = 0;
    let b = g.add_node("b");
    g.add_edge(a, b);
    assert!((density_of(&g) - 0.5).abs() < 0.001);
}

#[test]
fn test_density_ratio_exact() {
    let mut g = DiGraph::new();
    assert_eq!(g.density_ratio(), (0, 0));

    let a = g.add_node("a");
    let b = g.add_node("b");
    g.add_edge(a, b);
    assert_eq!(g.density_ratio(), (1, 2));

    let c = g.add_node("c");
    g.add_edge(b, c);
    assert_eq!(g.density_ratio(), (2, 6));
}

#[test]
fn test_node_lookup() {
    let mut g = DiGraph::new();
    let a = g.add_node("bv-1");
    let b = g.add_node("bv-2");
    assert_eq!(g.node_id(a), Some("bv-1".to_string()));
    assert_eq!(g.node_id(b), Some("bv-2".to_string()));
    assert_eq!(g.node_id(2), None);
    assert_eq!(g.node_idx("bv-1"), Some(a));
    assert_eq!(g.node_idx("bv-2"), Some(b));
    assert_eq!(g.node_idx("bv-3"), None);
    assert_eq!(g.node_ids(), vec!["bv-1".to_string(), "bv-2".to_string()]);
}

#[test]
fn test_add_edge_out_of_range() {
    let mut g = DiGraph::new();
    let a = g.add_node("a");
    let b = g.add_node("b");
    g.add_edge(a, 5);
    g.add_edge(5, b);
    g.add_edge(7, 9);
    assert_eq!(g.node_count(), 2);
    assert_eq!(g.edge_count(), 0);
    assert_eq!(g.out_degree(a), 0);
    assert_eq!(g.in_degree(b), 0);
}

#[test]
fn test_neighbor_lists() {
    let mut g = DiGraph::new();
    let a = g.add_node("a");
    let b = g.add_node("b");
    let c = g.add_node("c");
    g.add_edge(a, c);
    g.add_edge(a, b);
    g.add_edge(b, c);

    assert_eq!(g.successors(a), vec![c, b]);
    assert_eq!(g.successors(b), vec![c]);
    assert_eq!(g.successors(c), Vec::<usize>::new());
    assert_eq!(g.successors(9), Vec::<usize>::new());

    assert_eq!(g.predecessors(c), vec![a, b]);
    assert_eq!(g.predecessors(b), vec![a]);
    assert_eq!(g.predecessors(a), Vec::<usize>::new());
    assert_eq!(g.predecessors(9), Vec::<usize>::new());

    assert_eq!(g.out_degrees(), vec![2, 1, 0]);
    assert_eq!(g.in_degrees(), vec![0, 1, 2]);
}
