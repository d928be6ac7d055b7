//! The storage side of a graph-based vector index: the caches that a build or an insertion
//! works through, the chained page items that hold large values, and the adjacency rules of
//! nodes that store their vectors in full.

pub mod access_method;
pub mod util;
