//! What the index does with its nodes: caches of adjacency and of quantized vectors, and the
//! storage that keeps vectors in full.

pub mod distance;
pub mod graph;
pub mod labels;
pub mod meta_page;
pub mod plain;
pub mod sbq;
pub mod stats;
