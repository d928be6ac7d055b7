//! Storage that keeps vectors in full, and how distances between them are asked for.

use vstd::prelude::*;

use crate::access_method::distance::{accepts, comparable, measured};
use crate::access_method::graph::neighbor_with_distance::Distance;
use crate::access_method::labels::LabeledVector;
use crate::access_method::stats::NodeStats;
use crate::util::item_pointer::IndexPointer;

use self::node::{copy_of, PlainNode};
use self::storage::PlainStorage;

pub mod node;
pub mod search_laws;
pub mod storage;

verus! {

/// How the distance from a query is measured: by its vector in full.
pub enum PlainDistanceMeasure<E> {
    Full(LabeledVector<E>),
}

impl<E> PlainDistanceMeasure<E> {
    /// How far a vector is from the query, which is counted.
    pub fn calculate_distance<F: Fn(&[E], &[E]) -> Distance>(
        distance_fn: &F,
        query: &[E],
        vector: &[E],
        stats: &mut NodeStats,
    ) -> (r: Distance)
        requires
            comparable(query@, vector@),
            accepts(*distance_fn, query@, vector@),
            old(stats).full_distance_comparisons < usize::MAX,
        ensures
            measured(*distance_fn, query@, vector@, r),
            *final(stats) == old(stats).after_comparisons(1),
    {
        stats.record_full_distance_comparison();
        distance_fn(query, vector)
    }
}

/// How far nodes are from one node of the index. It holds a copy of that node's vector, so the
/// node's page does not stay locked.
pub struct IndexFullDistanceMeasure<'a, E, F: Fn(&[E], &[E]) -> Distance> {
    vector: Vec<E>,
    storage: &'a PlainStorage<F>,
}

impl<'a, E: Copy, F: Fn(&[E], &[E]) -> Distance> IndexFullDistanceMeasure<'a, E, F> {
    /// The vector from which distances are measured.
    pub closed spec fn vector(&self) -> Seq<E> {
        self.vector@
    }

    /// The storage whose distance function is asked.
    pub closed spec fn storage(&self) -> PlainStorage<F> {
        *self.storage
    }

    /// Distances from the node at `index_pointer`, which `read` reads.
    pub fn with_index_pointer<R: FnOnce(IndexPointer) -> PlainNode<E>>(
        storage: &'a PlainStorage<F>,
        index_pointer: IndexPointer,
        read: R,
        stats: &mut NodeStats,
    ) -> (r: Self)
        requires
            call_requires(read, (index_pointer,)),
            old(stats).reads < usize::MAX,
        ensures
            *final(stats) == old(stats).after_reads(1),
            r.storage() == *storage,
            exists|node: PlainNode<E>| #[trigger]
                call_ensures(read, (index_pointer,), node) && r.vector() == node.vector@,
    {
        let node = read(index_pointer);
        stats.record_read();
        Self::with_readable_node(storage, &node)
    }

    /// Distances from a node that was read.
    pub fn with_readable_node(storage: &'a PlainStorage<F>, readable_node: &PlainNode<E>) -> (r:
        Self)
        ensures
            r.storage() == *storage,
            r.vector() == readable_node.vector@,
    {
        // Pruning must not keep the source page locked while reading candidates.
        IndexFullDistanceMeasure { vector: copy_of(readable_node.vector.as_slice()), storage }
    }

    /// How far the node at `index_pointer`, which `read` reads, is away.
    pub fn get_distance<R: Fn(IndexPointer) -> PlainNode<E>>(
        &self,
        index_pointer: IndexPointer,
        read: &R,
        stats: &mut NodeStats,
    ) -> (r: Distance)
        requires
            call_requires(*read, (index_pointer,)),
            forall|node: PlainNode<E>| #[trigger]
                call_ensures(*read, (index_pointer,), node) ==> comparable(
                    node.vector@,
                    self.vector(),
                ) && accepts(self.storage().distance_fn, node.vector@, self.vector()),
            old(stats).reads < usize::MAX,
            old(stats).full_distance_comparisons < usize::MAX,
        ensures
            exists|node: PlainNode<E>| #[trigger]
                call_ensures(*read, (index_pointer,), node) && measured(
                    self.storage().distance_fn,
                    node.vector@,
                    self.vector(),
                    r,
                ),
            *final(stats) == old(stats).after_reads(1).after_comparisons(1),
    {
        let node = read(index_pointer);
        stats.record_read();
        stats.record_full_distance_comparison();
        (self.storage.distance_fn)(node.vector.as_slice(), self.vector.as_slice())
    }
}

} // verus!
