//! Numbered slots that hold values.

use vstd::prelude::*;

verus! {

/// Values in numbered slots. A slot that is emptied is used again before a new one is made.
pub struct Slab<V> {
    slots: Vec<Option<V>>,
    free: Vec<usize>,
}

impl<V> View for Slab<V> {
    type V = Map<usize, V>;

    closed spec fn view(&self) -> Map<usize, V> {
        Map::new(
            |i: usize| i < self.slots.len() && self.slots[i as int] is Some,
            |i: usize| self.slots[i as int]->0,
        )
    }
}

impl<V> Slab<V> {
    /// The free list names the empty slots, each of them once.
    pub closed spec fn wf(&self) -> bool {
        &&& self.free@.no_duplicates()
        &&& forall|j: int|
            0 <= j < self.free.len() ==> (#[trigger] self.free[j]) < self.slots.len()
                && self.slots[self.free[j] as int] is None
        &&& forall|i: usize|
            i < self.slots.len() && (#[trigger] self.slots[i as int]) is None
                ==> self.free@.contains(i)
    }

    /// The slot that the next value goes to.
    pub closed spec fn next(&self) -> usize {
        if self.free.len() > 0 {
            self.free[self.free.len() - 1]
        } else {
            self.slots.len()
        }
    }

    pub fn new() -> (r: Self)
        ensures
            r.wf(),
            r@ == Map::<usize, V>::empty(),
    {
        let r = Slab { slots: Vec::new(), free: Vec::new() };
        assert(r@ =~= Map::<usize, V>::empty());
        r
    }

    /// The slot that the next value goes to. It is empty.
    pub fn next_slot(&self) -> (slot: usize)
        requires
            self.wf(),
        ensures
            slot == self.next(),
            !self@.contains_key(slot),
    {
        if self.free.len() > 0 {
            self.free[self.free.len() - 1]
        } else {
            self.slots.len()
        }
    }

    /// Puts `value` into the next slot.
    pub fn put(&mut self, value: V)
        requires
            old(self).wf(),
        ensures
            final(self).wf(),
            final(self)@ == old(self)@.insert(old(self).next(), value),
    {
        let ghost before = *self;
        match self.free.pop() {
            Some(slot) => {
                assert(before.free[before.free.len() - 1] == slot);
                self.slots.set(slot, Some(value));
                assert forall|i: usize|
                    i < self.slots.len() && (#[trigger] self.slots[i as int]) is None implies
                    self.free@.contains(i) by {
                    assert(before.slots[i as int] is None);
                    let j = choose|j: int| 0 <= j < before.free.len() && before.free[j] == i;
                    assert(self.free[j] == i);
                }
            },
            None => {
                self.slots.push(Some(value));
                assert(self.free@ =~= before.free@);
                assert forall|i: usize|
                    i < self.slots.len() && (#[trigger] self.slots[i as int]) is None implies
                    self.free@.contains(i) by {
                    assert(before.slots[i as int] is None);
                }
            },
        }
        assert(self@ =~= before@.insert(before.next(), value));
    }

    /// Takes the value out of `slot`.
    pub fn take(&mut self, slot: usize) -> (value: V)
        requires
            old(self).wf(),
            old(self)@.contains_key(slot),
        ensures
            final(self).wf(),
            final(self)@ == old(self)@.remove(slot),
            value == old(self)@[slot],
    {
        let ghost before = *self;
        let value = self.slots[slot].take().unwrap();
        self.free.push(slot);
        proof {
            assert forall|i: usize|
                i < self.slots.len() && (#[trigger] self.slots[i as int]) is None implies
                self.free@.contains(i) by {
                if i == slot {
                    assert(self.free[self.free.len() - 1] == slot);
                } else {
                    assert(before.slots[i as int] is None);
                    let j = choose|j: int| 0 <= j < before.free.len() && before.free[j] == i;
                    assert(self.free[j] == i);
                }
            }
            assert(self@ =~= before@.remove(slot));
        }
        value
    }

    /// The value in `slot`.
    pub fn get(&self, slot: usize) -> (value: &V)
        requires
            self.wf(),
            self@.contains_key(slot),
        ensures
            *value == self@[slot],
    {
        self.slots[slot].as_ref().unwrap()
    }
}

} // verus!
