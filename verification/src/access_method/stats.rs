//! What an operation on the index counts.

use vstd::prelude::*;

verus! {

/// Counts of what was read, written and compared.
#[derive(Copy, Clone, Debug, PartialEq, Eq, Structural)]
pub struct NodeStats {
    pub reads: usize,
    pub writes: usize,
    pub heap_reads: usize,
    pub full_distance_comparisons: usize,
    pub unchanged: usize,
}

impl Default for NodeStats {
    fn default() -> (r: Self)
        ensures
            r == NodeStats::zero(),
    {
        NodeStats { reads: 0, writes: 0, heap_reads: 0, full_distance_comparisons: 0, unchanged: 0 }
    }
}

impl NodeStats {
    pub open spec fn zero() -> NodeStats {
        NodeStats { reads: 0, writes: 0, heap_reads: 0, full_distance_comparisons: 0, unchanged: 0 }
    }

    pub open spec fn after_reads(self, n: int) -> NodeStats {
        NodeStats { reads: (self.reads + n) as usize, ..self }
    }

    pub open spec fn after_writes(self, n: int) -> NodeStats {
        NodeStats { writes: (self.writes + n) as usize, ..self }
    }

    pub open spec fn after_comparisons(self, n: int) -> NodeStats {
        NodeStats {
            full_distance_comparisons: (self.full_distance_comparisons + n) as usize,
            ..self
        }
    }

    pub open spec fn after_unchanged(self) -> NodeStats {
        NodeStats { unchanged: (self.unchanged + 1) as usize, ..self }
    }

    pub open spec fn after_heap_read(self) -> NodeStats {
        NodeStats { heap_reads: (self.heap_reads + 1) as usize, ..self }
    }

    /// These counts and those of `other` together.
    pub open spec fn plus(self, other: NodeStats) -> NodeStats {
        NodeStats {
            reads: (self.reads + other.reads) as usize,
            writes: (self.writes + other.writes) as usize,
            heap_reads: (self.heap_reads + other.heap_reads) as usize,
            full_distance_comparisons: (self.full_distance_comparisons
                + other.full_distance_comparisons) as usize,
            unchanged: (self.unchanged + other.unchanged) as usize,
        }
    }

    /// Whether no count is above `bound`.
    pub open spec fn within(self, bound: int) -> bool {
        &&& self.reads <= bound
        &&& self.writes <= bound
        &&& self.heap_reads <= bound
        &&& self.full_distance_comparisons <= bound
        &&& self.unchanged <= bound
    }

    /// What is counted is added to its count, and to no other.
    pub proof fn lemma_counted(self, n: int)
        requires
            0 <= n,
            self.reads + n <= usize::MAX,
            self.writes + n <= usize::MAX,
            self.full_distance_comparisons + n <= usize::MAX,
            self.heap_reads < usize::MAX,
            self.unchanged < usize::MAX,
        ensures
            self.after_reads(n).reads == self.reads + n,
            self.after_reads(n).same_but_reads(self),
            self.after_writes(n).writes == self.writes + n,
            self.after_writes(n).reads == self.reads,
            self.after_writes(n).heap_reads == self.heap_reads,
            self.after_writes(n).full_distance_comparisons == self.full_distance_comparisons,
            self.after_writes(n).unchanged == self.unchanged,
            self.after_comparisons(n).full_distance_comparisons == self.full_distance_comparisons
                + n,
            self.after_comparisons(n).reads == self.reads,
            self.after_comparisons(n).writes == self.writes,
            self.after_comparisons(n).heap_reads == self.heap_reads,
            self.after_comparisons(n).unchanged == self.unchanged,
            self.after_heap_read().heap_reads == self.heap_reads + 1,
            self.after_heap_read().reads == self.reads,
            self.after_heap_read().writes == self.writes,
            self.after_heap_read().full_distance_comparisons == self.full_distance_comparisons,
            self.after_heap_read().unchanged == self.unchanged,
            self.after_unchanged().unchanged == self.unchanged + 1,
            self.after_unchanged().reads == self.reads,
            self.after_unchanged().writes == self.writes,
            self.after_unchanged().heap_reads == self.heap_reads,
            self.after_unchanged().full_distance_comparisons == self.full_distance_comparisons,
    {
    }

    /// Whether every count but the reads is that of `other`.
    pub open spec fn same_but_reads(self, other: NodeStats) -> bool {
        &&& self.writes == other.writes
        &&& self.heap_reads == other.heap_reads
        &&& self.full_distance_comparisons == other.full_distance_comparisons
        &&& self.unchanged == other.unchanged
    }

    /// Counts from two places are added one by one.
    pub proof fn lemma_plus(self, other: NodeStats)
        requires
            self.reads + other.reads <= usize::MAX,
            self.writes + other.writes <= usize::MAX,
            self.heap_reads + other.heap_reads <= usize::MAX,
            self.full_distance_comparisons + other.full_distance_comparisons <= usize::MAX,
            self.unchanged + other.unchanged <= usize::MAX,
        ensures
            self.plus(other).reads == self.reads + other.reads,
            self.plus(other).writes == self.writes + other.writes,
            self.plus(other).heap_reads == self.heap_reads + other.heap_reads,
            self.plus(other).full_distance_comparisons == self.full_distance_comparisons
                + other.full_distance_comparisons,
            self.plus(other).unchanged == self.unchanged + other.unchanged,
    {
    }

    /// Adds what was counted elsewhere.
    pub fn record_all(&mut self, other: &NodeStats)
        requires
            old(self).reads + other.reads <= usize::MAX,
            old(self).writes + other.writes <= usize::MAX,
            old(self).heap_reads + other.heap_reads <= usize::MAX,
            old(self).full_distance_comparisons + other.full_distance_comparisons <= usize::MAX,
            old(self).unchanged + other.unchanged <= usize::MAX,
        ensures
            *final(self) == old(self).plus(*other),
    {
        self.reads = self.reads + other.reads;
        self.writes = self.writes + other.writes;
        self.heap_reads = self.heap_reads + other.heap_reads;
        self.full_distance_comparisons = self.full_distance_comparisons
            + other.full_distance_comparisons;
        self.unchanged = self.unchanged + other.unchanged;
    }

    /// Counts a row of the table that was asked for.
    pub fn record_heap_read(&mut self)
        requires
            old(self).heap_reads < usize::MAX,
        ensures
            *final(self) == old(self).after_heap_read(),
    {
        self.heap_reads = self.heap_reads + 1;
    }

    pub fn record_read(&mut self)
        requires
            old(self).reads < usize::MAX,
        ensures
            *final(self) == old(self).after_reads(1),
    {
        self.reads = self.reads + 1;
    }

    pub fn record_write(&mut self)
        requires
            old(self).writes < usize::MAX,
        ensures
            *final(self) == old(self).after_writes(1),
    {
        self.writes = self.writes + 1;
    }

    pub fn record_full_distance_comparison(&mut self)
        requires
            old(self).full_distance_comparisons < usize::MAX,
        ensures
            *final(self) == old(self).after_comparisons(1),
    {
        self.full_distance_comparisons = self.full_distance_comparisons + 1;
    }

    /// Counts an adjacency that was validated and needed no change.
    pub fn record_unchanged(&mut self)
        requires
            old(self).unchanged < usize::MAX,
        ensures
            *final(self) == old(self).after_unchanged(),
    {
        self.unchanged = self.unchanged + 1;
    }
}

} // verus!
