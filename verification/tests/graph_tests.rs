use kedge::graph::Graph;

fn sorted(mut v: Vec<(usize, usize)>) -> Vec<(usize, usize)> {
    v.sort();
    v
}

#[test]
fn new_records_both_sides() {
    // An edge (0, 1) must be reachable from either endpoint.
    let g = Graph::new(2, &vec![(0, 1)]);
    let mut visited = vec![true, false];
    g.dfs(0, &mut visited);
    assert_eq!(visited, vec![true, true]);
    let mut visited = vec![false, true];
    g.dfs(1, &mut visited);
    assert_eq!(visited, vec![true, true]);
}

#[test]
fn dfs_marks_exactly_the_reachable_nodes() {
    // 0 - 1 - 2, isolated 3 and 4 - 5.
    let g = Graph::new(6, &vec![(0, 1), (1, 2), (4, 5)]);
    let mut visited = vec![true, false, false, false, false, false];
    g.dfs(0, &mut visited);
    assert_eq!(visited, vec![true, true, true, false, false, false]);
}

#[test]
fn node_count_reports_the_order() {
    let g = Graph::new(5, &vec![(0, 4)]);
    assert_eq!(g.node_count(), 5);
    let empty = Graph::new(0, &vec![]);
    assert_eq!(empty.node_count(), 0);
}

#[test]
fn connectivity_on_a_path_and_with_an_isolated_node() {
    // Nodes {0,1,2} with edges {(0,1),(1,2)} are connected.
    let g = Graph::new(3, &vec![(0, 1), (1, 2)]);
    assert!(g.is_connected());
    // Dropping (1,2) isolates node 2.
    let g = Graph::new(3, &vec![(0, 1)]);
    assert!(!g.is_connected());
}

#[test]
fn empty_and_singleton_graphs_are_connected() {
    assert!(Graph::new(0, &vec![]).is_connected());
    assert!(Graph::new(1, &vec![]).is_connected());
}

#[test]
fn two_isolated_nodes_are_disconnected() {
    assert!(!Graph::new(2, &vec![]).is_connected());
}

#[test]
fn triangle_is_one_but_not_two_edge_connected() {
    let triangle = Graph::new(3, &vec![(0, 1), (1, 2), (0, 2)]);
    assert!(triangle.is_k_edge_connected(1));
    assert!(!triangle.is_k_edge_connected(2));
}

#[test]
fn degenerate_threshold_rejects_small_edge_counts() {
    // edge_count <= k is never k-edge-connected.
    let single = Graph::new(2, &vec![(0, 1)]);
    assert!(!single.is_k_edge_connected(1));
    assert!(!single.is_k_edge_connected(5));
    let empty = Graph::new(3, &vec![]);
    assert!(!empty.is_k_edge_connected(0));
    let triangle = Graph::new(3, &vec![(0, 1), (1, 2), (0, 2)]);
    assert!(!triangle.is_k_edge_connected(3));
}

#[test]
fn path_is_zero_but_not_one_edge_connected() {
    let path = Graph::new(3, &vec![(0, 1), (1, 2)]);
    assert!(path.is_k_edge_connected(0));
    assert!(!path.is_k_edge_connected(1));
}

#[test]
fn duplicate_adjacency_entries_do_not_change_the_verdict() {
    // The same edge listed twice still counts as one canonical edge.
    let g = Graph::new(2, &vec![(0, 1), (0, 1)]);
    assert!(!g.is_k_edge_connected(1));
    assert!(g.is_k_edge_connected(0));
}

#[test]
fn decision_is_idempotent() {
    let triangle = Graph::new(3, &vec![(0, 1), (1, 2), (0, 2)]);
    let first = triangle.is_k_edge_connected(1);
    let second = triangle.is_k_edge_connected(1);
    assert_eq!(first, second);
    assert!(first);
}

#[test]
fn enumeration_on_the_triangle_reports_only_the_full_subset() {
    // For K3 with k = 1 the two-node subsets fail the degenerate threshold
    // (one edge, k = 1), so only {0,1,2} qualifies.
    let edges = vec![(0, 1), (0, 2), (1, 2)];
    let subs = kedge::graph::enumerate_k_edge_connected_induced_subgraphs(3, &edges, 1);
    assert_eq!(subs, vec![vec![0, 1, 2]]);
}

#[test]
fn enumeration_with_k_zero_reports_every_connected_induced_subgraph() {
    // For K3 with k = 0 every non-empty subset induces a connected graph
    // with at least one edge except the singletons (no edges at all).
    let edges = vec![(0, 1), (0, 2), (1, 2)];
    let subs = kedge::graph::enumerate_k_edge_connected_induced_subgraphs(3, &edges, 0);
    let mut subs = subs;
    subs.sort();
    assert_eq!(
        subs,
        vec![vec![0, 1], vec![0, 1, 2], vec![0, 2], vec![1, 2]]
    );
}

#[test]
fn generator_returns_exactly_the_requested_count() {
    let edges = kedge::random_graph::generate_random_graph_edges(6, 4);
    assert_eq!(edges.len(), 4);
    for &(u, v) in &edges {
        assert!(u < v && v < 6);
    }
    let mut dedup = edges.clone();
    dedup.sort();
    dedup.dedup();
    assert_eq!(dedup.len(), 4);
}

#[test]
fn generator_caps_at_the_complete_graph() {
    // 4 nodes allow 6 pairs; asking for more yields exactly all of them.
    let edges = kedge::random_graph::generate_random_graph_edges(4, 100);
    assert_eq!(
        sorted(edges),
        vec![(0, 1), (0, 2), (0, 3), (1, 2), (1, 3), (2, 3)]
    );
    let exact = kedge::random_graph::generate_random_graph_edges(3, 3);
    assert_eq!(sorted(exact), vec![(0, 1), (0, 2), (1, 2)]);
}

#[test]
fn generator_on_no_nodes_is_empty() {
    assert!(kedge::random_graph::generate_random_graph_edges(0, 10).is_empty());
    assert!(kedge::random_graph::generate_random_graph_edges(5, 0).is_empty());
}

#[test]
fn generated_graphs_feed_the_decision_procedure() {
    // A generated complete graph on 4 nodes is 2-edge-connected but, with
    // 6 edges, never 6-edge-connected.
    let edges = kedge::random_graph::generate_random_graph_edges(4, 6);
    let g = Graph::new(4, &edges);
    assert!(g.is_k_edge_connected(2));
    assert!(!g.is_k_edge_connected(6));
}
