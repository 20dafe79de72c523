use dsproject::graph::Graph;

fn pairs(es: &[(usize, usize)]) -> Vec<(usize, usize)> {
    es.to_vec()
}

#[test]
fn empty_graph() {
    let g = Graph::new();
    assert_eq!(g.node_count(), 0);
    assert_eq!(g.edge_count(), 0);
    assert!(g.nodes().is_empty());
}

#[test]
fn add_node_returns_fresh_indices() {
    let mut g = Graph::new();
    assert_eq!(g.add_node(), 0);
    assert_eq!(g.add_node(), 1);
    assert_eq!(g.add_node(), 2);
    assert_eq!(g.node_count(), 3);
    assert_eq!(g.edge_count(), 0);
    assert_eq!(g.nodes(), vec![0, 1, 2]);
}

#[test]
fn add_edge_keeps_insertion_order_and_duplicates() {
    let mut g = Graph::new();
    g.add_node();
    g.add_node();
    g.add_edge(0, 1);
    g.add_edge(0, 1);
    g.add_edge(0, 0);
    assert_eq!(g.edge_count(), 3);
    assert_eq!(g.out_neighbors(0), &vec![1, 1, 0]);
    assert_eq!(g.out_neighbors(1), &Vec::new());
    assert_eq!(g.out_degree(0), 3);
    assert_eq!(g.out_degree(1), 0);
}

#[test]
fn from_edges_materializes_index_range() {
    // if node 10 and node 20 appear, nodes 0..=20 all exist
    let g = Graph::from_edges(&pairs(&[(10, 20)]));
    assert_eq!(g.node_count(), 21);
    assert_eq!(g.edge_count(), 1);
    assert_eq!(g.out_neighbors(10), &vec![20]);
    assert_eq!(g.out_neighbors(0), &Vec::new());
}

#[test]
fn from_edges_node_count_exceeds_max_endpoint() {
    let es = pairs(&[(0, 1), (1, 2), (7, 3), (2, 0)]);
    let g = Graph::from_edges(&es);
    let max_endpoint = 7;
    assert!(g.node_count() >= 1 + max_endpoint);
    assert_eq!(g.node_count(), 8);
    assert_eq!(g.edge_count(), es.len());
}

#[test]
fn from_edges_empty() {
    let g = Graph::from_edges(&Vec::new());
    assert_eq!(g.node_count(), 0);
    assert_eq!(g.edge_count(), 0);
}

#[test]
fn from_edges_adjacency_by_source() {
    let g = Graph::from_edges(&pairs(&[(0, 1), (1, 0), (0, 2), (0, 1)]));
    assert_eq!(g.node_count(), 3);
    assert_eq!(g.out_neighbors(0), &vec![1, 2, 1]);
    assert_eq!(g.out_neighbors(1), &vec![0]);
    assert_eq!(g.out_neighbors(2), &Vec::new());
}
