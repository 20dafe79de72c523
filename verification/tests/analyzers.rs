use dsproject::centrality::bfs_dist_sum;
use dsproject::centrality::closeness_distance_sums;
use dsproject::degree::degree_histogram;
use dsproject::graph::Graph;
use dsproject::ingest::graph_from_lines;
use dsproject::second::second_degree_count;
use dsproject::second::second_degree_histogram;

fn graph_of(ls: &[&str]) -> Graph {
    let lines: Vec<Vec<u8>> = ls.iter().map(|s| s.as_bytes().to_vec()).collect();
    graph_from_lines(&lines).expect("input names no oversized endpoint")
}

fn score(sum: usize) -> f64 {
    if sum > 0 {
        1.0 / (sum as f64)
    } else {
        0.0
    }
}

#[test]
fn three_cycle_statistics() {
    // the lines `0 1`, `1 2`, `2 0` make a 3-cycle
    let g = graph_of(&["0 1", "1 2", "2 0"]);
    assert_eq!(g.node_count(), 3);
    assert_eq!(g.edge_count(), 3);
    // every node has out-degree 1
    assert_eq!(degree_histogram(&g), vec![0, 3]);
    // every node's unique second hop is the node two steps ahead
    assert_eq!(second_degree_histogram(&g), vec![0, 3]);
    // distances from each node are 0, 1, 2: sum 3, score 1/3
    let sums = closeness_distance_sums(&g);
    assert_eq!(sums, vec![3, 3, 3]);
    for s in sums {
        assert_eq!(score(s), 1.0 / 3.0);
    }
}

#[test]
fn self_loop_single_node() {
    // the line `0 0` makes one node with a self-loop
    let g = graph_of(&["0 0"]);
    assert_eq!(g.node_count(), 1);
    assert_eq!(g.edge_count(), 1);
    assert_eq!(degree_histogram(&g), vec![0, 1]);
    // 0 -> 0 -> 0: the node is its own second-hop neighbour
    assert_eq!(second_degree_histogram(&g), vec![0, 1]);
    // only the node itself is reachable, at distance 0
    let sums = closeness_distance_sums(&g);
    assert_eq!(sums, vec![0]);
    assert_eq!(score(sums[0]), 0.0);
}

#[test]
fn degree_histogram_counts_and_sums() {
    let g = graph_of(&["0 1", "0 2", "1 2"]);
    let h = degree_histogram(&g);
    // out-degrees are 2, 1, 0
    assert_eq!(h, vec![1, 1, 1]);
    let nodes: usize = h.iter().sum();
    assert_eq!(nodes, g.node_count());
    let edges: usize = h.iter().enumerate().map(|(d, c)| d * c).sum();
    assert_eq!(edges, g.edge_count());
}

#[test]
fn degree_histogram_counts_duplicate_edges() {
    let g = graph_of(&["0 1", "0 1"]);
    // node 0 has out-degree 2 through the duplicated edge
    assert_eq!(degree_histogram(&g), vec![1, 0, 1]);
}

#[test]
fn second_degree_counts_each_target_once() {
    // both first hops of node 0 lead to node 3
    let g = graph_of(&["0 1", "0 2", "1 3", "2 3"]);
    // second-degree counts: node 0 -> 1 (node 3, once), others 0
    let h = second_degree_histogram(&g);
    assert_eq!(h, vec![3, 1]);
    let nodes: usize = h.iter().sum();
    assert_eq!(nodes, g.node_count());
}

#[test]
fn second_degree_counts_per_node() {
    let g = graph_of(&["0 1", "0 2", "1 3", "2 3", "3 0"]);
    // node 0's two first hops both lead to node 3, counted once
    assert_eq!(second_degree_count(&g, 0), 1);
    // node 1 and node 2 reach node 0 through node 3
    assert_eq!(second_degree_count(&g, 1), 1);
    assert_eq!(second_degree_count(&g, 2), 1);
    // node 3 reaches nodes 1 and 2 through node 0
    assert_eq!(second_degree_count(&g, 3), 2);
}

#[test]
fn bfs_distance_sums_per_node() {
    let g = graph_of(&["0 1", "0 2", "2 3"]);
    // from node 0: distances 1, 1, 2
    assert_eq!(bfs_dist_sum(&g, 0), 4);
    assert_eq!(bfs_dist_sum(&g, 1), 0);
    // from node 2: node 3 at distance 1
    assert_eq!(bfs_dist_sum(&g, 2), 1);
    assert_eq!(bfs_dist_sum(&g, 3), 0);
}

#[test]
fn second_degree_zero_without_two_hop_paths() {
    let g = graph_of(&["0 1"]);
    assert_eq!(second_degree_histogram(&g), vec![2]);
}

#[test]
fn second_degree_bucket_keys_bounded_by_node_count() {
    let g = graph_of(&["0 0"]);
    let h = second_degree_histogram(&g);
    assert!(h.len() <= g.node_count() + 1);
}

#[test]
fn centrality_sums_on_a_path() {
    let g = graph_of(&["0 1", "1 2"]);
    let sums = closeness_distance_sums(&g);
    // node 0 reaches 1 and 2 at distances 1 and 2; node 1 reaches 2; node 2 nothing
    assert_eq!(sums, vec![3, 1, 0]);
    assert_eq!(score(sums[0]), 1.0 / 3.0);
    assert_eq!(score(sums[1]), 1.0);
    assert_eq!(score(sums[2]), 0.0);
    for s in sums {
        let sc = score(s);
        assert!((0.0..=1.0).contains(&sc));
    }
}

#[test]
fn centrality_zero_out_degree_scores_zero() {
    let g = graph_of(&["1 0"]);
    let sums = closeness_distance_sums(&g);
    // node 0 has no outgoing edge and is not alone, so its score is exactly 0
    assert_eq!(sums[0], 0);
    assert_eq!(score(sums[0]), 0.0);
}

#[test]
fn centrality_table_capped_at_thousand() {
    let mut edges: Vec<(usize, usize)> = Vec::new();
    for i in 0..1004 {
        edges.push((i, i + 1));
    }
    let g = Graph::from_edges(&edges);
    assert_eq!(g.node_count(), 1005);
    let sums = closeness_distance_sums(&g);
    assert_eq!(sums.len(), 1000);
}

#[test]
fn centrality_table_size_is_node_count_when_small() {
    let g = graph_of(&["0 1", "1 2", "2 0"]);
    assert_eq!(closeness_distance_sums(&g).len(), g.node_count());
}

#[test]
fn analyzers_are_deterministic() {
    let g = graph_of(&["0 1", "1 2", "2 0", "0 2", "3 1"]);
    assert_eq!(degree_histogram(&g), degree_histogram(&g));
    assert_eq!(second_degree_histogram(&g), second_degree_histogram(&g));
    assert_eq!(closeness_distance_sums(&g), closeness_distance_sums(&g));
}

#[test]
fn unreachable_nodes_contribute_nothing() {
    // two components: 0 -> 1 and 2 -> 3
    let g = graph_of(&["0 1", "2 3"]);
    let sums = closeness_distance_sums(&g);
    assert_eq!(sums, vec![1, 0, 1, 0]);
}
