//! Neighbors of a node, and how far away they are.

use vstd::prelude::*;

use crate::access_method::labels::{clone_labels, labels_view, LabelSet};
use crate::util::item_pointer::{IndexPointer, ItemPointer};

verus! {

/// A distance, as the bits of a 32-bit floating point number. Distances are carried here; they
/// are computed and compared elsewhere.
pub type Distance = u32;

/// A distance, with the nodes between which it lies to tell equal distances apart.
#[derive(Clone, Copy, Debug, PartialEq, Eq, Structural)]
pub struct DistanceWithTieBreak {
    pub distance: Distance,
    pub from: ItemPointer,
    pub to: ItemPointer,
}

impl DistanceWithTieBreak {
    pub fn new(distance: Distance, from: ItemPointer, to: ItemPointer) -> (r: Self)
        ensures
            r == (DistanceWithTieBreak { distance, from, to }),
    {
        DistanceWithTieBreak { distance, from, to }
    }
}

/// A neighbor of a node.
#[derive(Debug)]
pub struct NeighborWithDistance {
    pub index_pointer: IndexPointer,
    pub distance: DistanceWithTieBreak,
    pub labels: Option<LabelSet>,
}

/// What a neighbor is.
pub struct NeighborView {
    pub index_pointer: IndexPointer,
    pub distance: DistanceWithTieBreak,
    pub labels: Option<Seq<i16>>,
}

impl View for NeighborWithDistance {
    type V = NeighborView;

    open spec fn view(&self) -> NeighborView {
        NeighborView {
            index_pointer: self.index_pointer,
            distance: self.distance,
            labels: labels_view(self.labels),
        }
    }
}

impl NeighborWithDistance {
    pub fn new(
        index_pointer: IndexPointer,
        distance: DistanceWithTieBreak,
        labels: Option<LabelSet>,
    ) -> (r: Self)
        ensures
            r == (NeighborWithDistance { index_pointer, distance, labels }),
    {
        NeighborWithDistance { index_pointer, distance, labels }
    }

    pub fn get_index_pointer_to_neighbor(&self) -> (r: IndexPointer)
        ensures
            r == self.index_pointer,
    {
        self.index_pointer
    }
}

impl Clone for NeighborWithDistance {
    fn clone(&self) -> (r: Self)
        ensures
            r@ == self@,
    {
        NeighborWithDistance {
            index_pointer: self.index_pointer,
            distance: self.distance,
            labels: clone_labels(&self.labels),
        }
    }
}

/// What the neighbors are.
pub open spec fn neighbor_views(neighbors: Seq<NeighborWithDistance>) -> Seq<NeighborView> {
    Seq::new(neighbors.len(), |i: int| neighbors[i]@)
}

/// Where the neighbors stand.
pub open spec fn pointers_to(neighbors: Seq<NeighborWithDistance>) -> Seq<IndexPointer> {
    Seq::new(neighbors.len(), |i: int| neighbors[i].index_pointer)
}

/// A copy of the neighbors.
pub fn clone_neighbors(neighbors: &[NeighborWithDistance]) -> (r: Vec<NeighborWithDistance>)
    ensures
        neighbor_views(r@) == neighbor_views(neighbors@),
        pointers_to(r@) == pointers_to(neighbors@),
{
    let mut r: Vec<NeighborWithDistance> = Vec::new();
    let mut i: usize = 0;
    while i < neighbors.len()
        invariant
            i <= neighbors.len(),
            r.len() == i,
            forall|j: int| 0 <= j < i ==> (#[trigger] r[j])@ == neighbors[j]@,
        decreases neighbors.len() - i,
    {
        r.push(neighbors[i].clone());
        i = i + 1;
    }
    assert(neighbor_views(r@) =~= neighbor_views(neighbors@));
    assert forall|j: int| 0 <= j < r.len() implies (#[trigger] r[j]).index_pointer
        == neighbors[j].index_pointer by {
        assert(r[j]@.index_pointer == neighbors[j]@.index_pointer);
    }
    assert(pointers_to(r@) =~= pointers_to(neighbors@));
    r
}

/// Where the neighbors stand.
pub fn index_pointers(neighbors: &[NeighborWithDistance]) -> (r: Vec<IndexPointer>)
    ensures
        r@ == pointers_to(neighbors@),
{
    let mut r: Vec<IndexPointer> = Vec::new();
    let mut i: usize = 0;
    while i < neighbors.len()
        invariant
            i <= neighbors.len(),
            r.len() == i,
            forall|j: int| 0 <= j < i ==> (#[trigger] r[j]) == neighbors[j].index_pointer,
        decreases neighbors.len() - i,
    {
        r.push(neighbors[i].get_index_pointer_to_neighbor());
        i = i + 1;
    }
    assert(r@ =~= pointers_to(neighbors@));
    r
}

} // verus!
