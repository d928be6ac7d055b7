//! Quantized vectors in memory.

use vstd::layout::size_of;
use vstd::prelude::*;

use crate::access_method::stats::NodeStats;
use crate::util::item_pointer::{key_of, IndexPointer, ItemPointer};
use crate::util::lru::{
    lemma_get_or_insert_keeps, CacheNotice, CacheStats, CacheView, LruCacheWithStats,
};
use crate::util::recency::{has_key, value_of};

verus! {

/// A word of a quantized vector.
pub type SbqVectorElement = u64;

/// A bounded cache of quantized vectors, by the node that they belong to.
pub struct QuantizedVectorCache {
    cache: LruCacheWithStats<Vec<SbqVectorElement>>,
}

impl View for QuantizedVectorCache {
    type V = CacheView<Vec<SbqVectorElement>>;

    closed spec fn view(&self) -> CacheView<Vec<SbqVectorElement>> {
        self.cache@
    }
}

impl QuantizedVectorCache {
    pub closed spec fn wf(&self) -> bool {
        self.cache.wf()
    }

    /// What holds of every cache.
    pub proof fn lemma_consistent(&self)
        requires
            self.wf(),
        ensures
            self@.consistent(),
    {
        self.cache.lemma_consistent();
    }

    /// About how many bytes an entry takes: its pointer, its vector, and the vector's elements.
    pub open spec fn spec_entry_size(sbq_vec_len: int) -> int {
        size_of::<ItemPointer>() + size_of::<Vec<SbqVectorElement>>()
            + size_of::<SbqVectorElement>() * sbq_vec_len
    }

    /// The size grows by that of an element for each element. Without elements it is that of the
    /// pointer and the vector.
    pub proof fn lemma_entry_size(a: int, b: int)
        requires
            0 <= a,
            0 <= b,
        ensures
            Self::spec_entry_size(0) == size_of::<ItemPointer>() + size_of::<
                Vec<SbqVectorElement>,
            >(),
            Self::spec_entry_size(a + b) == Self::spec_entry_size(a) + b * size_of::<
                SbqVectorElement,
            >(),
            a > 0 ==> Self::spec_entry_size(a) > 0,
    {
        broadcast use vstd::layout::layout_of_primitives;

        assert(size_of::<SbqVectorElement>() == 8);
    }

    /// How many entries fit into the memory budget, in bytes, but no fewer than `min_capacity`.
    pub open spec fn capacity(memory_budget: int, sbq_vec_len: int, min_capacity: int) -> int {
        let fitting = memory_budget / Self::spec_entry_size(sbq_vec_len);
        if fitting > min_capacity {
            fitting
        } else {
            min_capacity
        }
    }

    /// The memory budget is used and kept: the entries fit into it, and one more would not. Only
    /// the minimal capacity may exceed it.
    pub proof fn lemma_budget_kept(memory_budget: int, sbq_vec_len: int, min_capacity: int)
        requires
            0 <= memory_budget,
            0 < Self::spec_entry_size(sbq_vec_len),
        ensures
            ({
                let capacity = Self::capacity(memory_budget, sbq_vec_len, min_capacity);
                let size = Self::spec_entry_size(sbq_vec_len);
                &&& capacity >= min_capacity
                &&& capacity > min_capacity ==> capacity * size <= memory_budget
                &&& memory_budget < (capacity + 1) * size
            }),
    {
        let capacity = Self::capacity(memory_budget, sbq_vec_len, min_capacity);
        let size = Self::spec_entry_size(sbq_vec_len);
        let fitting = memory_budget / size;
        assert(fitting * size <= memory_budget < (fitting + 1) * size) by (nonlinear_arith)
            requires
                fitting == memory_budget / size,
                size > 0,
        ;
        assert((fitting + 1) * size <= (capacity + 1) * size) by (nonlinear_arith)
            requires
                fitting <= capacity,
                size > 0,
        ;
    }

    /// Estimate of the size of an entry in the cache in bytes.
    pub fn entry_size(sbq_vec_len: usize) -> (r: usize)
        requires
            Self::spec_entry_size(sbq_vec_len as int) <= usize::MAX,
        ensures
            r == Self::spec_entry_size(sbq_vec_len as int),
    {
        let element: usize = std::mem::size_of::<SbqVectorElement>();
        assert(0 <= element * sbq_vec_len) by (nonlinear_arith);
        std::mem::size_of::<ItemPointer>() + std::mem::size_of::<Vec<SbqVectorElement>>() + element
            * sbq_vec_len
    }

    fn max_entries(memory_budget: usize, sbq_vec_len: usize, min_capacity: usize) -> (r: usize)
        requires
            0 < Self::spec_entry_size(sbq_vec_len as int) <= usize::MAX,
        ensures
            r == Self::capacity(memory_budget as int, sbq_vec_len as int, min_capacity as int),
    {
        let fitting: usize = memory_budget / Self::entry_size(sbq_vec_len);
        if fitting > min_capacity {
            fitting
        } else {
            min_capacity
        }
    }

    /// A cache for a build, reserved up front. `memory_budget` is in bytes.
    pub fn new(memory_budget: usize, sbq_vec_len: usize, min_capacity: usize) -> (r: Self)
        requires
            0 < Self::spec_entry_size(sbq_vec_len as int) <= usize::MAX,
            0 < Self::capacity(memory_budget as int, sbq_vec_len as int, min_capacity as int)
                <= usize::MAX / 128,
        ensures
            r.wf(),
            r@ == CacheView::<Vec<SbqVectorElement>>::fresh(
                Self::capacity(
                    memory_budget as int,
                    sbq_vec_len as int,
                    min_capacity as int,
                ) as nat,
                "Quantized vector"@,
            ),
    {
        let capacity = Self::max_entries(memory_budget, sbq_vec_len, min_capacity);
        QuantizedVectorCache { cache: LruCacheWithStats::new(capacity, "Quantized vector") }
    }

    /// A cache for one insertion, which grows up to its capacity. `memory_budget` is in bytes.
    pub fn new_for_insert(memory_budget: usize, sbq_vec_len: usize, min_capacity: usize) -> (r:
        Self)
        requires
            0 < Self::spec_entry_size(sbq_vec_len as int) <= usize::MAX,
            0 < Self::capacity(memory_budget as int, sbq_vec_len as int, min_capacity as int),
        ensures
            r.wf(),
            r@ == CacheView::<Vec<SbqVectorElement>>::fresh(
                Self::capacity(
                    memory_budget as int,
                    sbq_vec_len as int,
                    min_capacity as int,
                ) as nat,
                "Quantized vector"@,
            ),
    {
        let capacity = Self::max_entries(memory_budget, sbq_vec_len, min_capacity);
        QuantizedVectorCache { cache: LruCacheWithStats::new_lazy(capacity, "Quantized vector") }
    }

    /// Keeps the vector of a node that is at hand anyway.
    pub fn remember(&mut self, index_pointer: IndexPointer, vector: Vec<SbqVectorElement>)
        requires
            old(self).wf(),
            has_key(old(self)@.entries, key_of(index_pointer)) ==> old(self)@.stats.updates
                < usize::MAX,
            !has_key(old(self)@.entries, key_of(index_pointer)) ==> old(self)@.stats.inserts
                < usize::MAX,
        ensures
            final(self).wf(),
            final(self)@ == old(self)@.after_push(key_of(index_pointer), vector),
    {
        let _ = self.cache.push(index_pointer.to_key(), vector);
    }

    pub fn stats(&self) -> (r: &CacheStats)
        ensures
            *r == self@.stats,
    {
        self.cache.stats()
    }

    /// How many vectors the cache holds.
    pub fn len(&self) -> (r: usize)
        requires
            self.wf(),
        ensures
            r == self@.entries.len(),
    {
        self.cache.len()
    }

    /// How many vectors the cache holds at most.
    pub fn cap(&self) -> (r: usize)
        requires
            self.wf(),
        ensures
            r == self@.cap,
            r > 0,
    {
        self.cache.cap()
    }

    /// The vector of a node. Where the cache has it, no node is read; where it has not, `read`
    /// reads it from the node's page, which is counted, and the vector is kept.
    pub fn get<F: FnOnce() -> Vec<SbqVectorElement>>(
        &mut self,
        index_pointer: IndexPointer,
        read: F,
        stats: &mut NodeStats,
    ) -> (r: &[SbqVectorElement])
        requires
            old(self).wf(),
            has_key(old(self)@.entries, key_of(index_pointer)) ==> old(self)@.stats.hits
                < usize::MAX,
            !has_key(old(self)@.entries, key_of(index_pointer)) ==> {
                &&& call_requires(read, ())
                &&& old(self)@.stats.misses < usize::MAX
                &&& old(self)@.stats.inserts < usize::MAX
                &&& old(stats).reads < usize::MAX
            },
        ensures
            final(self).wf(),
            has_key(final(self)@.entries, key_of(index_pointer)),
            ({
                let vector = value_of(final(self)@.entries, key_of(index_pointer));
                &&& r@ == vector@
                &&& final(self)@ == old(self)@.after_get_or_insert(key_of(index_pointer), vector)
                &&& if has_key(old(self)@.entries, key_of(index_pointer)) {
                    &&& vector == value_of(old(self)@.entries, key_of(index_pointer))
                    &&& *final(stats) == *old(stats)
                } else {
                    &&& call_ensures(read, (), vector)
                    &&& *final(stats) == old(stats).after_reads(1)
                }
            }),
    {
        let key = index_pointer.to_key();
        proof {
            self.lemma_consistent();
        }
        let ghost before = self@;
        let (vector, was_read) = self.cache.find_or_insert(key, read);
        if was_read {
            stats.record_read();
        }
        proof {
            lemma_get_or_insert_keeps(before, key, *vector);
        }
        vector.as_slice()
    }

    /// The notices since this was last asked, oldest first.
    pub fn take_notices(&mut self) -> (r: Vec<CacheNotice>)
        requires
            old(self).wf(),
        ensures
            final(self).wf(),
            r@ == old(self)@.notices,
            final(self)@ == (CacheView { notices: Seq::empty(), ..old(self)@ }),
    {
        self.cache.take_notices()
    }
}

} // verus!
