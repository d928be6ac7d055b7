//! Pointers to page items, the recency cache with statistics, and the chained tape.

pub mod cache_laws;
pub mod chain;
pub mod chain_laws;
pub mod header;
pub mod item_pointer;
pub mod lru;
pub mod page;
pub mod recency;
pub mod slab;
pub mod text;
