//! Storage that quantizes vectors.

pub mod cache;
