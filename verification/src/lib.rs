//! Brute-force exploration of k-edge-connectivity on small undirected graphs:
//! random edge-set generation, adjacency-list graphs with depth-first
//! connectivity testing, an exhaustive k-edge-connectivity decision procedure,
//! and enumeration of the k-edge-connected induced subgraphs.

pub mod connectivity;
pub mod graph;
pub mod random_graph;
