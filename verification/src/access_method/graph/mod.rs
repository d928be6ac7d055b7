//! Adjacency of the graph's nodes.

pub mod list_search;
pub mod neighbor_laws;
pub mod neighbor_store;
pub mod neighbor_with_distance;
