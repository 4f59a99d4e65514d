//! All-pairs shortest path lengths over a weighted, undirected graph given as
//! an edge list. The graph is built once, with sparse node identifiers
//! remapped to a dense index space; lengths are then computed either by a
//! label-setting search run from every node (the direct strategy) or by a
//! contraction-hierarchy index queried for every pair (the prepared strategy).

pub mod model;
pub mod graph;
pub mod direct;
pub mod prepared;
pub mod laws;

pub use direct::all_pairs_path_length_pathfinder;
pub use direct::successors;
pub use graph::Graph;
pub use graph::GraphError;
pub use graph::WeightedEdge;
pub use model::ShortestPathLength;
pub use prepared::all_pairs_path_length;
