pub mod graph;
pub mod paths;
pub mod bfs;
pub mod rank;
pub mod distance;
pub mod jaccard;
