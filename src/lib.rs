//! Power-graph compression of directed graphs.

pub mod sets;
pub mod ids;
pub mod unordered_tuple;
pub mod graph;
pub mod edge_repository;
pub mod clusters;
pub mod similarity_matrix;
pub mod cluster_repository;
mod combinations;
pub mod power;
pub mod candidates;
pub mod power_graph;
mod worklist;

pub use graph::{Edge, Node};
pub use power::{PowerEdge, PowerNode};
pub use power_graph::PowerGraph;
