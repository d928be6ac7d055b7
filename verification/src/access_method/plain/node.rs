//! Nodes that hold their vectors in full.

use vstd::prelude::*;

use crate::util::item_pointer::{HeapPointer, IndexPointer};

verus! {

/// A node: its vector, the nodes that it has edges to, and the row that it stands for.
pub struct PlainNode<E> {
    pub vector: Vec<E>,
    pub neighbors: Vec<IndexPointer>,
    pub heap_item_pointer: HeapPointer,
}

/// A copy of the elements of a slice.
pub fn copy_of<T: Copy>(items: &[T]) -> (r: Vec<T>)
    ensures
        r@ == items@,
{
    let mut r: Vec<T> = Vec::new();
    let mut i: usize = 0;
    while i < items.len()
        invariant
            i <= items.len(),
            r@ == items@.take(i as int),
        decreases items.len() - i,
    {
        r.push(items[i]);
        i = i + 1;
        assert(items@.take(i as int) =~= items@.take(i - 1).push(items@[i - 1]));
    }
    assert(items@.take(i as int) =~= items@);
    r
}

impl<E> PlainNode<E> {
    /// A node without edges.
    pub fn new_for_full_vector(vector: Vec<E>, heap_pointer: HeapPointer) -> (r: Self)
        ensures
            r.vector == vector,
            r.neighbors@ == Seq::<IndexPointer>::empty(),
            r.heap_item_pointer == heap_pointer,
    {
        PlainNode { vector, neighbors: Vec::new(), heap_item_pointer: heap_pointer }
    }

    /// The nodes that this node has edges to.
    pub fn get_index_pointer_to_neighbors(&self) -> (r: Vec<IndexPointer>)
        ensures
            r@ == self.neighbors@,
    {
        copy_of(self.neighbors.as_slice())
    }
}

} // verus!
