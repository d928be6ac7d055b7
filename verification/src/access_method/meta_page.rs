//! What the index records of itself.

use vstd::prelude::*;

verus! {

/// The parameters of an index.
#[derive(Clone, Copy, Debug, PartialEq, Eq, Structural)]
pub struct MetaPage {
    pub num_dimensions: u32,
    pub num_dimensions_to_index: u32,
    /// How many neighbors a node has at most.
    pub num_neighbors: u32,
    /// How many neighbors a node has at most while the index is built.
    pub max_neighbors_during_build: usize,
    /// The bits of the largest pruning factor.
    pub max_alpha: u64,
    pub has_labels: bool,
}

impl MetaPage {
    pub fn get_num_neighbors(&self) -> (r: u32)
        ensures
            r == self.num_neighbors,
    {
        self.num_neighbors
    }

    pub fn get_max_neighbors_during_build(&self) -> (r: usize)
        ensures
            r == self.max_neighbors_during_build,
    {
        self.max_neighbors_during_build
    }
}

} // verus!
