//! Structural statistics over a directed graph: degree centrality, shortest
//! paths, degree moments and clustering, each stated and proved against a
//! mathematical model of the graph.

pub mod clustering;
pub mod edges;
pub mod graph;
pub mod path;
pub mod stats;

pub use clustering::{clustering_coefficient, local_clustering_coefficients};
pub use edges::{parse_edge_line, parse_edge_list};
pub use graph::{Graph, NodeId};
pub use path::bfs_shortest_path;
pub use stats::{
    degree_variance, in_degree_centrality, mean_degree, out_degree_centrality, total_edge_count,
    GraphError, Ratio,
};
