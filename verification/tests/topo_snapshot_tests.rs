use bv_graph::DiGraph;
use bv_graph::GraphSnapshot;

#[test]
fn test_topological_sort_chain() {
    let mut g = DiGraph::new();
    let a = g.add_node("a");
    let b = g.add_node("b");
    let c = g.add_node("c");
    g.add_edge(a, b);
    g.add_edge(a, c);
    g.add_edge(b, c);

    let order = g.topological_sort().unwrap();
    let pos = |x: usize| order.iter().position(|&y| y == x).unwrap();
    assert!(pos(a) < pos(b));
    assert!(pos(b) < pos(c));
    assert_eq!(order, vec![a, b, c]);
    assert!(g.is_dag());
}

#[test]
fn test_topological_sort_tie_break() {
    let mut g = DiGraph::new();
    let a = g.add_node("a");
    let b = g.add_node("b");
    let c = g.add_node("c");
    g.add_edge(c, a);

    // b and c start with in-degree zero; the lowest pending index goes
    // first, so b precedes c, and a follows its predecessor c.
    assert_eq!(g.topological_sort(), Some(vec![b, c, a]));
}

#[test]
fn test_cycle_detected() {
    let mut g = DiGraph::new();
    let a = g.add_node("a");
    let b = g.add_node("b");
    g.add_edge(a, b);
    g.add_edge(b, a);
    assert!(!g.is_dag());
    assert_eq!(g.topological_sort(), None);
}

#[test]
fn test_empty_graph_is_dag() {
    let g = DiGraph::new();
    assert_eq!(g.topological_sort(), Some(Vec::new()));
    assert!(g.is_dag());
}

#[test]
fn test_self_loop_not_dag() {
    let mut g = DiGraph::new();
    let a = g.add_node("a");
    g.add_edge(a, a);
    assert_eq!(g.edge_count(), 1);
    assert!(!g.is_dag());
    assert_eq!(g.topological_sort(), None);
}

#[test]
fn test_snapshot_roundtrip() {
    let mut g = DiGraph::new();
    let a = g.add_node("a");
    let b = g.add_node("b");
    g.add_edge(a, b);

    let snapshot = g.export_snapshot();
    assert_eq!(snapshot.nodes, vec!["a".to_string(), "b".to_string()]);
    assert_eq!(snapshot.edges, vec![(a, b)]);

    let g2 = DiGraph::import_snapshot(&snapshot);
    assert_eq!(g2.node_count(), 2);
    assert_eq!(g2.edge_count(), 1);
    assert_eq!(g2.node_id(0), Some("a".to_string()));
    assert_eq!(g2.node_id(1), Some("b".to_string()));
}

#[test]
fn test_snapshot_export_order() {
    let mut g = DiGraph::new();
    let a = g.add_node("a");
    let b = g.add_node("b");
    let c = g.add_node("c");
    g.add_edge(b, c);
    g.add_edge(a, c);
    g.add_edge(a, b);

    // Edges are enumerated source by source, each source's targets in
    // insertion order.
    let snapshot = g.export_snapshot();
    assert_eq!(snapshot.edges, vec![(a, c), (a, b), (b, c)]);
}

#[test]
fn test_import_drops_bad_edges() {
    let snapshot = GraphSnapshot {
        nodes: vec!["x".to_string(), "y".to_string(), "x".to_string()],
        edges: vec![(0, 1), (0, 1), (4, 1), (0, 7), (1, 0)],
    };
    let g = DiGraph::import_snapshot(&snapshot);
    // The duplicate label keeps its first index; out-of-range and
    // duplicate pairs are dropped.
    assert_eq!(g.node_count(), 2);
    assert_eq!(g.edge_count(), 2);
    assert_eq!(g.node_idx("x"), Some(0));
    assert_eq!(g.node_idx("y"), Some(1));
    assert_eq!(g.successors(0), vec![1]);
    assert_eq!(g.successors(1), vec![0]);
}

#[test]
fn test_isolated_node_first_available() {
    let mut g = DiGraph::new();
    let a = g.add_node("a");
    let b = g.add_node("b");
    let iso = g.add_node("iso");
    g.add_edge(a, b);

    // The isolated node has in-degree zero from the start and appears at
    // the first position the tie-break allows.
    assert_eq!(g.topological_sort(), Some(vec![a, b, iso]));
}
