//! Where the neighbors of a node are kept.
//!
//! While an index is built, neighbors are changed in memory rather than on the pages. A cache
//! of bounded size holds them; what it evicts or is asked to flush has to be merged into the
//! adjacency on disk. Reading from disk and merging is done by the caller: the functions here
//! say what is to be read, and hand out what is to be merged.

use vstd::layout::size_of;
use vstd::prelude::*;

use crate::access_method::graph::neighbor_with_distance::{
    clone_neighbors, index_pointers, neighbor_views, pointers_to, NeighborWithDistance,
};
use crate::access_method::labels::LabelSet;
use crate::access_method::meta_page::MetaPage;
use crate::util::item_pointer::{
    key_of, lemma_key_order, lemma_key_roundtrip, pointer_before, pointer_of, IndexPointer,
    ItemPointer, KEY_LIMIT,
};
use crate::util::lru::{
    after_steps, lemma_kept_among_few, lemma_push_conserves, step_keys, CacheNotice, CacheStats,
    CacheStep, CacheView, LruCacheWithStats,
};
use crate::util::recency::{
    distinct_keys, has_key, lemma_position, lemma_pushed, lemma_touched, position, pushed, touched,
    value_of,
};

verus! {

/// How candidates are ordered and pruned where neighbors are merged.
#[derive(Clone, Copy, Debug, PartialEq, Eq, Structural)]
pub enum NeighborMergeMode {
    Disk,
    Builder { always_prune: bool },
}

/// The neighbors of a node, as the builder keeps them in memory, and the node's labels.
#[derive(Debug)]
pub struct NeighborCacheEntry {
    pub labels: Option<LabelSet>,
    pub neighbors: Vec<NeighborWithDistance>,
}

/// What labels take up besides the entry itself: around four of two bytes each.
pub const LABELS_SIZE: usize = 8;

impl NeighborCacheEntry {
    /// About how many bytes an entry takes.
    pub open spec fn spec_size(num_neighbors: int, has_labels: bool) -> int {
        size_of::<NeighborCacheEntry>() + num_neighbors * size_of::<NeighborWithDistance>()
            + if has_labels {
            LABELS_SIZE as int
        } else {
            0
        }
    }

    /// The size grows by that of a neighbor for each neighbor, and by a fixed amount for labels.
    /// Without either it is the size of the entry itself.
    pub proof fn lemma_size(a: int, b: int, has_labels: bool)
        requires
            0 <= a,
            0 <= b,
        ensures
            Self::spec_size(0, false) == size_of::<NeighborCacheEntry>(),
            Self::spec_size(a + b, has_labels) == Self::spec_size(a, has_labels) + b * size_of::<
                NeighborWithDistance,
            >(),
            Self::spec_size(a, true) == Self::spec_size(a, false) + LABELS_SIZE,
            Self::spec_size(a, has_labels) <= Self::spec_size(a + b, has_labels),
            Self::spec_size(a, has_labels) >= size_of::<NeighborCacheEntry>(),
            size_of::<NeighborCacheEntry>() > 0 || has_labels ==> Self::spec_size(a, has_labels)
                > 0,
    {
        let n = size_of::<NeighborWithDistance>() as int;
        assert((a + b) * n == a * n + b * n && a * n >= 0 && b * n >= 0) by (nonlinear_arith)
            requires
                0 <= a,
                0 <= b,
                0 <= n,
        ;
    }

    pub fn new(labels: Option<LabelSet>, neighbors: Vec<NeighborWithDistance>) -> (r: Self)
        ensures
            r == (NeighborCacheEntry { labels, neighbors }),
    {
        NeighborCacheEntry { labels, neighbors }
    }

    /// Estimate of the size of an entry in the cache in bytes.
    pub fn size(num_neighbors: usize, has_labels: bool) -> (r: usize)
        requires
            Self::spec_size(num_neighbors as int, has_labels) <= usize::MAX,
        ensures
            r == Self::spec_size(num_neighbors as int, has_labels),
    {
        let neighbor: usize = std::mem::size_of::<NeighborWithDistance>();
        assert(0 <= num_neighbors * neighbor) by (nonlinear_arith);
        let labels: usize = if has_labels {
            LABELS_SIZE
        } else {
            0
        };
        std::mem::size_of::<Self>() + num_neighbors * neighbor + labels
    }
}

/// Neighbors that have to be merged into the adjacency of a node on disk, and how. Whoever merges
/// them counts what that takes.
#[derive(Debug)]
pub struct MergeRequest {
    pub neighbors_of: ItemPointer,
    pub labels: Option<LabelSet>,
    pub neighbors: Vec<NeighborWithDistance>,
    /// The bits of the largest pruning factor.
    pub max_alpha: u64,
    pub num_neighbors: usize,
    pub mode: NeighborMergeMode,
}

/// `Vec::shrink_to_fit`: gives unused memory back; the elements stay.
#[verifier::external_body]
fn shrink_to_fit(neighbors: &mut Vec<NeighborWithDistance>)
    ensures
        final(neighbors)@ == old(neighbors)@,
{
    neighbors.shrink_to_fit()
}

/// The entries with the key `key`, in their order.
pub open spec fn with_first<V>(entries: Seq<(u64, V)>, key: u64) -> Seq<(u64, V)> {
    entries.filter(|e: (u64, V)| e.0 == key)
}

/// `<[T]>::sort_by_key`, by the first component: the same elements, in ascending order of it.
/// Elements with the same first component keep their order.
#[verifier::external_body]
fn sort_by_first<V>(entries: &mut Vec<(u64, V)>)
    ensures
        final(entries)@.to_multiset() == old(entries)@.to_multiset(),
        forall|key: u64| #[trigger]
            with_first(final(entries)@, key) == with_first(old(entries)@, key),
        forall|i: int, j: int|
            0 <= i < j < final(entries)@.len() ==> (#[trigger] final(entries)@[i]).0 <= (
            #[trigger] final(entries)@[j]).0,
{
    entries.sort_by_key(|(key, _)| *key)
}

/// How many entries a builder's cache has, given the memory for all workers together.
pub open spec fn builder_capacity(
    memory_budget: int,
    num_neighbors: int,
    has_labels: bool,
    worker_count: int,
) -> int {
    let total = memory_budget / NeighborCacheEntry::spec_size(num_neighbors, has_labels);
    let capacity = if worker_count > 0 {
        total / worker_count
    } else {
        total
    };
    if capacity > 1 {
        capacity
    } else {
        1
    }
}

/// The memory budget is used and kept: the entries of all workers together fit into it, and one
/// more for each would not. Only the one entry that a cache has in any case may exceed it.
pub proof fn lemma_builder_budget_kept(
    memory_budget: int,
    num_neighbors: int,
    has_labels: bool,
    worker_count: int,
)
    requires
        0 <= memory_budget,
        0 < NeighborCacheEntry::spec_size(num_neighbors, has_labels),
        0 <= worker_count,
    ensures
        ({
            let capacity = builder_capacity(memory_budget, num_neighbors, has_labels, worker_count);
            let size = NeighborCacheEntry::spec_size(num_neighbors, has_labels);
            let workers = if worker_count > 0 {
                worker_count
            } else {
                1
            };
            &&& capacity >= 1
            &&& capacity > 1 ==> capacity * workers * size <= memory_budget
            &&& memory_budget < (capacity + 1) * workers * size
        }),
{
    let capacity = builder_capacity(memory_budget, num_neighbors, has_labels, worker_count);
    let size = NeighborCacheEntry::spec_size(num_neighbors, has_labels);
    let total = memory_budget / size;
    assert(total * size <= memory_budget < (total + 1) * size) by (nonlinear_arith)
        requires
            total == memory_budget / size,
            size > 0,
    ;
    let workers = if worker_count > 0 {
        worker_count
    } else {
        1
    };
    let share = total / workers;
    assert(share * workers <= total < (share + 1) * workers) by (nonlinear_arith)
        requires
            share == total / workers,
            workers > 0,
    ;
    assert(share <= capacity);
    assert(total + 1 <= (capacity + 1) * workers) by (nonlinear_arith)
        requires
            total < (share + 1) * workers,
            share <= capacity,
            workers > 0,
    ;
    assert((total + 1) * size <= (capacity + 1) * workers * size) by (nonlinear_arith)
        requires
            total + 1 <= (capacity + 1) * workers,
            size > 0,
    ;
    assert(share * workers * size <= total * size) by (nonlinear_arith)
        requires
            share * workers <= total,
            size > 0,
    ;
}

/// Every key of the cache is the number of a pointer.
pub open spec fn pointer_keys<V>(entries: Seq<(u64, V)>) -> bool {
    forall|i: int| 0 <= i < entries.len() ==> (#[trigger] entries[i]).0 < KEY_LIMIT
}

/// The entries with their keys read as pointers.
pub open spec fn by_pointer<V>(entries: Seq<(u64, V)>) -> Seq<(ItemPointer, V)> {
    Seq::new(entries.len(), |i: int| (pointer_of(entries[i].0), entries[i].1))
}

/// The neighbors that are being built, in memory as far as they fit.
pub struct BuilderNeighborCache {
    neighbor_map: LruCacheWithStats<NeighborCacheEntry>,
    num_neighbors: usize,
    max_alpha: u64,
}

impl BuilderNeighborCache {
    /// The cache that maps nodes to their neighbors. Its keys are the numbers of pointers.
    pub closed spec fn map(&self) -> CacheView<NeighborCacheEntry> {
        self.neighbor_map@
    }

    pub closed spec fn num_neighbors(&self) -> usize {
        self.num_neighbors
    }

    pub closed spec fn max_alpha(&self) -> u64 {
        self.max_alpha
    }

    pub closed spec fn wf(&self) -> bool {
        &&& self.neighbor_map.wf()
        &&& pointer_keys(self.neighbor_map@.entries)
    }

    /// Whether nothing but the cache differs.
    pub open spec fn same_settings(&self, other: &Self) -> bool {
        &&& self.num_neighbors() == other.num_neighbors()
        &&& self.max_alpha() == other.max_alpha()
    }

    /// What has to be merged of an entry that leaves the cache.
    pub open spec fn merge_request(
        &self,
        left: (u64, NeighborCacheEntry),
        always_prune: bool,
    ) -> MergeRequest {
        MergeRequest {
            neighbors_of: pointer_of(left.0),
            labels: left.1.labels,
            neighbors: left.1.neighbors,
            max_alpha: self.max_alpha(),
            num_neighbors: self.num_neighbors(),
            mode: NeighborMergeMode::Builder { always_prune },
        }
    }

    /// An empty cache. `memory_budget` is in bytes, for all workers together.
    pub fn new(memory_budget: usize, meta_page: &MetaPage, worker_count: usize) -> (r: Self)
        requires
            0 < NeighborCacheEntry::spec_size(
                meta_page.num_neighbors as int,
                meta_page.has_labels,
            ) <= usize::MAX,
            builder_capacity(
                memory_budget as int,
                meta_page.num_neighbors as int,
                meta_page.has_labels,
                worker_count as int,
            ) <= usize::MAX / 128,
        ensures
            r.wf(),
            r.map() == CacheView::<NeighborCacheEntry>::fresh(
                builder_capacity(
                    memory_budget as int,
                    meta_page.num_neighbors as int,
                    meta_page.has_labels,
                    worker_count as int,
                ) as nat,
                "Builder neighbor"@,
            ),
            r.num_neighbors() == meta_page.num_neighbors,
            r.max_alpha() == meta_page.max_alpha,
    {
        let num_neighbors: usize = meta_page.get_num_neighbors() as usize;
        let size = NeighborCacheEntry::size(num_neighbors, meta_page.has_labels);
        let total: usize = memory_budget / size;
        let capacity: usize = if worker_count > 0 {
            total / worker_count
        } else {
            total
        };
        let capacity: usize = if capacity > 1 {
            capacity
        } else {
            1
        };
        BuilderNeighborCache {
            neighbor_map: LruCacheWithStats::new(capacity, "Builder neighbor"),
            num_neighbors,
            max_alpha: meta_page.max_alpha,
        }
    }

    /// The entries, in the order of the nodes that they belong to.
    pub fn into_sorted(self) -> (r: Vec<(ItemPointer, NeighborCacheEntry)>)
        requires
            self.wf(),
        ensures
            r@.len() == self.map().entries.len(),
            forall|e: (ItemPointer, NeighborCacheEntry)|
                #[trigger] r@.contains(e) <==> by_pointer(self.map().entries).contains(e),
            forall|i: int, j: int|
                0 <= i < j < r@.len() ==> pointer_before(
                    (#[trigger] r@[i]).0,
                    (#[trigger] r@[j]).0,
                ),
    {
        let ghost entries = self.neighbor_map@.entries;
        proof {
            self.neighbor_map.lemma_consistent();
        }
        let (parts, _stats) = self.neighbor_map.into_parts();
        let mut vec = parts.entries;
        sort_by_first(&mut vec);
        let ghost sorted = vec@;
        let mut r: Vec<(ItemPointer, NeighborCacheEntry)> = Vec::new();
        proof {
            lemma_sorted_pointers(entries, sorted);
        }
        for entry in iter: vec
            invariant
                iter.seq() == sorted,
                pointer_keys(sorted),
                r@ == by_pointer(sorted).take(iter.index() as int),
        {
            let (key, value) = entry;
            r.push((ItemPointer::from_key(key), value));
            assert(by_pointer(sorted).take(iter.index() + 1) =~= by_pointer(sorted).take(
                iter.index() as int,
            ).push(by_pointer(sorted)[iter.index() as int]));
        }
        assert(by_pointer(sorted).take(sorted.len() as int) =~= by_pointer(sorted));
        r
    }
}

/// The cache after every entry was taken out of it.
pub open spec fn flushed<V>(map: CacheView<V>) -> CacheView<V> {
    CacheView {
        entries: Seq::empty(),
        stats: CacheStats {
            evictions: (map.stats.evictions + map.entries.len()) as usize,
            ..map.stats
        },
        ..map
    }
}

proof fn lemma_pointer_keys<V>(map: CacheView<V>, key: u64, value: V)
    requires
        map.consistent(),
        pointer_keys(map.entries),
        key < KEY_LIMIT,
    ensures
        pointer_keys(map.after_push(key, value).entries),
        pointer_keys(map.after_get(key).entries),
        pointer_keys(map.after_pop().entries),
{
}

/// Whether the labels are those that were given, or else what `stored` says of the node.
pub open spec fn labels_or_stored<L: FnOnce(ItemPointer) -> Option<LabelSet>>(
    labels: Option<LabelSet>,
    stored: L,
    node: ItemPointer,
    r: Option<LabelSet>,
) -> bool {
    if labels is Some {
        r == labels
    } else {
        call_ensures(stored, (node,), r)
    }
}

impl BuilderNeighborCache {
    /// Whether the counters have room for one more lookup, and for the fill that may follow it.
    pub open spec fn can_count_lookup(&self, key: u64) -> bool {
        &&& has_key(self.map().entries, key) ==> self.map().stats.hits < usize::MAX
        &&& !has_key(self.map().entries, key) ==> self.map().stats.misses < usize::MAX
            && self.map().stats.inserts < usize::MAX
    }

    /// Whether the counters have room for neighbors to be set.
    pub open spec fn can_count_set(&self, key: u64) -> bool {
        &&& has_key(self.map().entries, key) ==> self.map().stats.updates < usize::MAX
        &&& !has_key(self.map().entries, key) ==> self.map().stats.inserts < usize::MAX
    }

    /// What has to be merged when an entry for `key` comes in.
    pub open spec fn evicted_request(&self, key: u64) -> Option<MergeRequest> {
        match self.map().push_result(key) {
            Some(left) => Some(self.merge_request(left, true)),
            None => None,
        }
    }

    /// The cache after a lookup that did not find the node, and the fill that followed: the
    /// entry holds what was read.
    pub open spec fn filled(
        &self,
        before: &Self,
        key: u64,
        labels: Option<LabelSet>,
        neighbors: Seq<NeighborWithDistance>,
    ) -> bool {
        let entry = value_of(self.map().entries, key);
        &&& has_key(self.map().entries, key)
        &&& entry.labels == labels
        &&& neighbor_views(entry.neighbors@) == neighbor_views(neighbors)
        &&& pointers_to(entry.neighbors@) == pointers_to(neighbors)
        &&& self.map() == before.map().after_get(key).after_push(key, entry)
    }

    /// What a lookup does and gives. The neighbors of a node that the cache has are those of its
    /// entry, and nothing has to be merged. Those of another node are what `read` says of it, the
    /// cache is filled with them, and what that evicts has to be merged.
    pub open spec fn looked_up<
        R: FnOnce(ItemPointer) -> Vec<NeighborWithDistance>,
        L: FnOnce(ItemPointer) -> Option<LabelSet>,
    >(
        &self,
        before: &Self,
        node: ItemPointer,
        read: R,
        stored_labels: L,
        neighbors: Seq<NeighborWithDistance>,
        request: Option<MergeRequest>,
    ) -> bool {
        let key = key_of(node);
        if has_key(before.map().entries, key) {
            let entry = value_of(before.map().entries, key);
            &&& neighbor_views(neighbors) == neighbor_views(entry.neighbors@)
            &&& pointers_to(neighbors) == pointers_to(entry.neighbors@)
            &&& self.map() == before.map().after_get(key)
            &&& request is None
        } else {
            &&& exists|found: Vec<NeighborWithDistance>| #[trigger]
                call_ensures(read, (node,), found) && neighbors == found@
            &&& exists|labels: Option<LabelSet>| #[trigger]
                call_ensures(stored_labels, (node,), labels) && self.filled(
                    before,
                    key,
                    labels,
                    neighbors,
                )
            &&& request == before.evicted_request(key)
        }
    }

    /// The neighbors of a node, where the cache has them. Where it has not, they are to be read
    /// from disk and handed to `fill_neighbors`.
    pub fn cached_neighbors(&mut self, neighbors_of: ItemPointer) -> (r: Option<
        Vec<NeighborWithDistance>,
    >)
        requires
            old(self).wf(),
            old(self).can_count_lookup(key_of(neighbors_of)),
        ensures
            final(self).wf(),
            final(self).same_settings(old(self)),
            final(self).map() == old(self).map().after_get(key_of(neighbors_of)),
            if has_key(old(self).map().entries, key_of(neighbors_of)) {
                r matches Some(neighbors) && neighbor_views(neighbors@) == neighbor_views(
                    value_of(old(self).map().entries, key_of(neighbors_of)).neighbors@,
                ) && pointers_to(neighbors@) == pointers_to(
                    value_of(old(self).map().entries, key_of(neighbors_of)).neighbors@,
                )
            } else {
                r is None
            },
    {
        let key = neighbors_of.to_key();
        proof {
            self.neighbor_map.lemma_consistent();
            lemma_pointer_keys(self.neighbor_map@, key, arbitrary());
        }
        match self.neighbor_map.get(&key) {
            Some(entry) => Some(clone_neighbors(entry.neighbors.as_slice())),
            None => None,
        }
    }

    /// Where the neighbors of a node stand, and what has to be merged. See
    /// `get_neighbors_with_full_vector_distances`.
    pub fn get_neighbors<
        R: FnOnce(ItemPointer) -> Vec<NeighborWithDistance>,
        L: FnOnce(ItemPointer) -> Option<LabelSet>,
    >(&mut self, neighbors_of: ItemPointer, read: R, stored_labels: L) -> (r: (
        Vec<IndexPointer>,
        Option<MergeRequest>,
    ))
        requires
            old(self).wf(),
            old(self).can_count_lookup(key_of(neighbors_of)),
            !has_key(old(self).map().entries, key_of(neighbors_of)) ==> call_requires(
                read,
                (neighbors_of,),
            ) && call_requires(stored_labels, (neighbors_of,)),
        ensures
            final(self).wf(),
            final(self).same_settings(old(self)),
            exists|neighbors: Seq<NeighborWithDistance>|
                {
                    &&& r.0@ == pointers_to(neighbors)
                    &&& #[trigger] final(self).looked_up(
                        old(self),
                        neighbors_of,
                        read,
                        stored_labels,
                        neighbors,
                        r.1,
                    )
                },
    {
        let (neighbors, request) = self.get_neighbors_with_full_vector_distances(
            neighbors_of,
            read,
            stored_labels,
        );
        let pointers = index_pointers(neighbors.as_slice());
        let r = (pointers, request);
        assert(r.0@ == pointers_to(neighbors@));
        assert(self.looked_up(old(self), neighbors_of, read, stored_labels, neighbors@, r.1));
        r
    }

    /// The neighbors of a node, and what has to be merged. Where the cache does not have the
    /// node, `read` reads its neighbors from disk and `stored_labels` its labels, and the cache
    /// keeps them.
    pub fn get_neighbors_with_full_vector_distances<
        R: FnOnce(ItemPointer) -> Vec<NeighborWithDistance>,
        L: FnOnce(ItemPointer) -> Option<LabelSet>,
    >(&mut self, neighbors_of: ItemPointer, read: R, stored_labels: L) -> (r: (
        Vec<NeighborWithDistance>,
        Option<MergeRequest>,
    ))
        requires
            old(self).wf(),
            old(self).can_count_lookup(key_of(neighbors_of)),
            !has_key(old(self).map().entries, key_of(neighbors_of)) ==> call_requires(
                read,
                (neighbors_of,),
            ) && call_requires(stored_labels, (neighbors_of,)),
        ensures
            final(self).wf(),
            final(self).same_settings(old(self)),
            final(self).looked_up(
                old(self),
                neighbors_of,
                read,
                stored_labels,
                r.0@,
                r.1,
            ),
            r.1 == (if has_key(old(self).map().entries, key_of(neighbors_of)) {
                None
            } else {
                old(self).evicted_request(key_of(neighbors_of))
            }),
    {
        match self.cached_neighbors(neighbors_of) {
            Some(neighbors) => (neighbors, None),
            None => {
                let neighbors = read(neighbors_of);
                let labels = stored_labels(neighbors_of);
                let ghost found = labels;
                let request = self.fill_neighbors(neighbors_of, labels, neighbors.as_slice());
                assert(self.filled(old(self), key_of(neighbors_of), found, neighbors@));
                (neighbors, request)
            },
        }
    }

    /// Keeps neighbors that were read from disk after a lookup did not find them, with the labels
    /// that the node has on disk. The answer is what has to be merged, if the cache had to evict
    /// an entry.
    pub fn fill_neighbors(
        &mut self,
        neighbors_of: ItemPointer,
        stored_labels: Option<LabelSet>,
        neighbors: &[NeighborWithDistance],
    ) -> (r: Option<MergeRequest>)
        requires
            old(self).wf(),
            old(self).can_count_set(key_of(neighbors_of)),
        ensures
            final(self).wf(),
            final(self).same_settings(old(self)),
            has_key(final(self).map().entries, key_of(neighbors_of)),
            ({
                let entry = value_of(final(self).map().entries, key_of(neighbors_of));
                &&& entry.labels == stored_labels
                &&& neighbor_views(entry.neighbors@) == neighbor_views(neighbors@)
                &&& pointers_to(entry.neighbors@) == pointers_to(neighbors@)
                &&& final(self).map() == old(self).map().after_push(key_of(neighbors_of), entry)
            }),
            r == old(self).evicted_request(key_of(neighbors_of)),
            r matches Some(request) ==> {
                let left = old(self).map().entries[0];
                &&& key_of(request.neighbors_of) == left.0
                &&& request.labels == left.1.labels
                &&& request.neighbors == left.1.neighbors
                &&& request.max_alpha == old(self).max_alpha()
                &&& request.num_neighbors == old(self).num_neighbors()
                &&& request.mode == (NeighborMergeMode::Builder { always_prune: true })
            },
    {
        self.store_neighbors(neighbors_of, stored_labels, clone_neighbors(neighbors))
    }

    /// Sets the neighbors of a node. Where no labels are given, the node keeps the labels that
    /// `stored_labels` reads from disk. The answer is what has to be merged, if the cache had to
    /// evict an entry.
    pub fn set_neighbors<L: FnOnce(ItemPointer) -> Option<LabelSet>>(
        &mut self,
        neighbors_of: ItemPointer,
        labels: Option<LabelSet>,
        stored_labels: L,
        new_neighbors: Vec<NeighborWithDistance>,
    ) -> (r: Option<MergeRequest>)
        requires
            old(self).wf(),
            old(self).can_count_set(key_of(neighbors_of)),
            labels is None ==> call_requires(stored_labels, (neighbors_of,)),
        ensures
            final(self).wf(),
            final(self).same_settings(old(self)),
            has_key(final(self).map().entries, key_of(neighbors_of)),
            ({
                let entry = value_of(final(self).map().entries, key_of(neighbors_of));
                &&& labels_or_stored(labels, stored_labels, neighbors_of, entry.labels)
                &&& entry.neighbors@ == new_neighbors@
                &&& final(self).map() == old(self).map().after_push(key_of(neighbors_of), entry)
            }),
            r == old(self).evicted_request(key_of(neighbors_of)),
            r matches Some(request) ==> {
                let left = old(self).map().entries[0];
                &&& key_of(request.neighbors_of) == left.0
                &&& request.labels == left.1.labels
                &&& request.neighbors == left.1.neighbors
                &&& request.max_alpha == old(self).max_alpha()
                &&& request.num_neighbors == old(self).num_neighbors()
                &&& request.mode == (NeighborMergeMode::Builder { always_prune: true })
            },
    {
        // A cache fill must retain the labels of its source, which label-aware pruning uses.
        let labels = match labels {
            Some(set) => Some(set),
            None => stored_labels(neighbors_of),
        };
        self.store_neighbors(neighbors_of, labels, new_neighbors)
    }

    fn store_neighbors(
        &mut self,
        neighbors_of: ItemPointer,
        labels: Option<LabelSet>,
        mut new_neighbors: Vec<NeighborWithDistance>,
    ) -> (r: Option<MergeRequest>)
        requires
            old(self).wf(),
            old(self).can_count_set(key_of(neighbors_of)),
        ensures
            final(self).wf(),
            final(self).same_settings(old(self)),
            has_key(final(self).map().entries, key_of(neighbors_of)),
            ({
                let entry = value_of(final(self).map().entries, key_of(neighbors_of));
                &&& entry.labels == labels
                &&& entry.neighbors@ == new_neighbors@
                &&& final(self).map() == old(self).map().after_push(key_of(neighbors_of), entry)
            }),
            r == old(self).evicted_request(key_of(neighbors_of)),
            r matches Some(request) ==> {
                let left = old(self).map().entries[0];
                &&& key_of(request.neighbors_of) == left.0
                &&& request.labels == left.1.labels
                &&& request.neighbors == left.1.neighbors
                &&& request.max_alpha == old(self).max_alpha()
                &&& request.num_neighbors == old(self).num_neighbors()
                &&& request.mode == (NeighborMergeMode::Builder { always_prune: true })
            },
    {
        shrink_to_fit(&mut new_neighbors);
        let key = neighbors_of.to_key();
        let entry = NeighborCacheEntry::new(labels, new_neighbors);
        proof {
            self.neighbor_map.lemma_consistent();
            lemma_pointer_keys(self.neighbor_map@, key, entry);
            lemma_pushed(self.neighbor_map@.entries, self.neighbor_map@.cap, key, entry);
        }
        match self.neighbor_map.push(key, entry) {
            Some((key, value)) => Some(self.request(key, value, true)),
            None => None,
        }
    }

    /// What has to be merged of an entry that left the cache.
    fn request(&self, key: u64, entry: NeighborCacheEntry, always_prune: bool) -> (r: MergeRequest)
        requires
            key < KEY_LIMIT,
        ensures
            r == self.merge_request((key, entry), always_prune),
    {
        MergeRequest {
            neighbors_of: ItemPointer::from_key(key),
            labels: entry.labels,
            neighbors: entry.neighbors,
            max_alpha: self.max_alpha,
            num_neighbors: self.num_neighbors,
            mode: NeighborMergeMode::Builder { always_prune },
        }
    }

    /// Takes the least recently used entry out, to be merged.
    pub fn flush_next(&mut self) -> (r: Option<MergeRequest>)
        requires
            old(self).wf(),
        ensures
            final(self).wf(),
            final(self).same_settings(old(self)),
            final(self).map() == old(self).map().after_pop(),
            r == (if old(self).map().entries.len() > 0 {
                Some(old(self).merge_request(old(self).map().entries[0], false))
            } else {
                None
            }),
            r matches Some(request) ==> {
                let left = old(self).map().entries[0];
                &&& key_of(request.neighbors_of) == left.0
                &&& request.labels == left.1.labels
                &&& request.neighbors == left.1.neighbors
                &&& request.max_alpha == old(self).max_alpha()
                &&& request.num_neighbors == old(self).num_neighbors()
                &&& request.mode == (NeighborMergeMode::Builder { always_prune: false })
            },
    {
        proof {
            self.neighbor_map.lemma_consistent();
            lemma_pointer_keys(self.neighbor_map@, 0, arbitrary());
        }
        match self.neighbor_map.pop_lru() {
            Some((key, entry)) => Some(self.request(key, entry, false)),
            None => None,
        }
    }

    /// Takes all entries out, to be merged so that other workers see them: the least recently
    /// used one comes first.
    pub fn flush_neighbor_cache(&mut self) -> (r: Vec<MergeRequest>)
        requires
            old(self).wf(),
        ensures
            final(self).wf(),
            final(self).same_settings(old(self)),
            final(self).map() == flushed(old(self).map()),
            r@ == Seq::new(
                old(self).map().entries.len(),
                |i: int| old(self).merge_request(old(self).map().entries[i], false),
            ),
            forall|i: int|
                0 <= i < old(self).map().entries.len() ==> {
                    let held = old(self).map().entries[i];
                    &&& key_of((#[trigger] r@[i]).neighbors_of) == held.0
                    &&& r@[i].labels == held.1.labels
                    &&& r@[i].neighbors == held.1.neighbors
                    &&& r@[i].max_alpha == old(self).max_alpha()
                    &&& r@[i].num_neighbors == old(self).num_neighbors()
                    &&& r@[i].mode == (NeighborMergeMode::Builder { always_prune: false })
                },
    {
        let ghost before = *self;
        let ghost entries = self.map().entries;
        let mut r: Vec<MergeRequest> = Vec::new();
        assert(entries.skip(0) =~= entries);
        proof {
            self.lemma_consistent();
        }
        loop
            invariant
                pointer_keys(entries),
                self.wf(),
                before.map().consistent(),
                self.same_settings(&before),
                entries == before.map().entries,
                r.len() <= entries.len(),
                self.map() == (CacheView {
                    entries: entries.skip(r.len() as int),
                    stats: CacheStats {
                        evictions: (before.map().stats.evictions + r.len()) as usize,
                        ..before.map().stats
                    },
                    ..before.map()
                }),
                forall|i: int|
                    0 <= i < r.len() ==> #[trigger] r[i] == before.merge_request(
                        entries[i],
                        false,
                    ),
            ensures
                r.len() == entries.len(),
            decreases entries.len() - r.len(),
        {
            let ghost done = r.len() as int;
            match self.flush_next() {
                Some(request) => {
                    r.push(request);
                    assert(entries.skip(done).drop_first() =~= entries.skip(done + 1));
                },
                None => {
                    break;
                },
            }
        }
        assert(self.map() =~= flushed(before.map()));
        assert(r@ =~= Seq::new(
            entries.len(),
            |i: int| before.merge_request(entries[i], false),
        ));
        r
    }

    /// What holds of every cache.
    pub proof fn lemma_consistent(&self)
        requires
            self.wf(),
        ensures
            self.map().consistent(),
            pointer_keys(self.map().entries),
    {
        self.neighbor_map.lemma_consistent();
    }

    /// A lookup that follows another one of the same node finds the node, so it reads nothing and
    /// evicts nothing. It gives the same neighbors, and the entries stay as they are.
    pub proof fn lemma_repeated_lookup<
        R1: FnOnce(ItemPointer) -> Vec<NeighborWithDistance>,
        L1: FnOnce(ItemPointer) -> Option<LabelSet>,
        R2: FnOnce(ItemPointer) -> Vec<NeighborWithDistance>,
        L2: FnOnce(ItemPointer) -> Option<LabelSet>,
    >(
        before: &Self,
        once: &Self,
        twice: &Self,
        node: ItemPointer,
        first: (R1, L1, Seq<NeighborWithDistance>, Option<MergeRequest>),
        second: (R2, L2, Seq<NeighborWithDistance>, Option<MergeRequest>),
    )
        requires
            before.wf(),
            once.looked_up(before, node, first.0, first.1, first.2, first.3),
            twice.looked_up(once, node, second.0, second.1, second.2, second.3),
        ensures
            has_key(once.map().entries, key_of(node)),
            neighbor_views(second.2) == neighbor_views(first.2),
            pointers_to(second.2) == pointers_to(first.2),
            second.3 is None,
            twice.map().entries == once.map().entries,
            twice.map().stats == once.map().stats.after_hit(),
    {
        let key = key_of(node);
        before.lemma_consistent();
        let old = before.map().entries;
        let s = once.map().entries;
        lemma_touched(old, key);
        if has_key(old, key) {
            assert(s[s.len() - 1] == (key, value_of(old, key)));
        } else {
            let entry = value_of(s, key);
            assert(once.map().entries == pushed(old, before.map().cap, key, entry));
            lemma_pushed(old, before.map().cap, key, entry);
            assert(s[s.len() - 1] == (key, entry));
        }
        lemma_position(s, s.len() - 1);
        assert(touched(s, key) =~= s);
    }

    /// The cache steps of a lookup: the lookup itself, and the fill where the node was not found.
    pub open spec fn lookup_steps(before: &Self, after: &Self, node: ItemPointer) -> Seq<
        CacheStep<NeighborCacheEntry>,
    > {
        let key = key_of(node);
        if has_key(before.map().entries, key) {
            seq![CacheStep::Get(key)]
        } else {
            seq![CacheStep::Get(key), CacheStep::Push(key, value_of(after.map().entries, key))]
        }
    }

    /// A lookup does the steps of a lookup, and uses no other node.
    pub proof fn lemma_lookup_is_steps<
        R: FnOnce(ItemPointer) -> Vec<NeighborWithDistance>,
        L: FnOnce(ItemPointer) -> Option<LabelSet>,
    >(
        before: &Self,
        after: &Self,
        node: ItemPointer,
        read: R,
        stored_labels: L,
        neighbors: Seq<NeighborWithDistance>,
        request: Option<MergeRequest>,
    )
        requires
            after.looked_up(before, node, read, stored_labels, neighbors, request),
        ensures
            after.map().entries == after_steps(
                before.map().entries,
                before.map().cap,
                Self::lookup_steps(before, after, node),
            ),
            after.map().cap == before.map().cap,
            step_keys(Self::lookup_steps(before, after, node)) == set![key_of(node)],
    {
        reveal_with_fuel(after_steps, 3);
        reveal_with_fuel(step_keys, 3);
        let steps = Self::lookup_steps(before, after, node);
        let first = CacheStep::<NeighborCacheEntry>::Get(key_of(node));
        assert(seq![first].drop_last() =~= Seq::<CacheStep<NeighborCacheEntry>>::empty());
        if !has_key(before.map().entries, key_of(node)) {
            assert(steps.drop_last() =~= seq![first]);
        }
        assert(step_keys(steps) =~= set![key_of(node)]);
    }

    /// What was set for a node, or read for it, is what a later lookup gives, as long as fewer
    /// other nodes were looked up or set in between than the cache has room for. The node is
    /// found then, so nothing is read.
    pub proof fn lemma_lookup_after_others<
        R: FnOnce(ItemPointer) -> Vec<NeighborWithDistance>,
        L: FnOnce(ItemPointer) -> Option<LabelSet>,
    >(
        before: CacheView<NeighborCacheEntry>,
        node: ItemPointer,
        entry: NeighborCacheEntry,
        steps: Seq<CacheStep<NeighborCacheEntry>>,
        later: &Self,
        after: &Self,
        read: R,
        stored_labels: L,
        neighbors: Seq<NeighborWithDistance>,
        request: Option<MergeRequest>,
    )
        requires
            before.consistent(),
            !step_keys(steps).contains(key_of(node)),
            step_keys(steps).len() < before.cap,
            later.map().entries == after_steps(
                before.after_push(key_of(node), entry).entries,
                before.cap,
                steps,
            ),
            after.looked_up(later, node, read, stored_labels, neighbors, request),
        ensures
            has_key(later.map().entries, key_of(node)),
            neighbor_views(neighbors) == neighbor_views(entry.neighbors@),
            pointers_to(neighbors) == pointers_to(entry.neighbors@),
            request is None,
    {
        let key = key_of(node);
        let s = before.after_push(key, entry).entries;
        lemma_pushed(before.entries, before.cap, key, entry);
        assert(s[s.len() - 1] == (key, entry));
        lemma_kept_among_few(s, before.cap, key, entry, steps);
    }

    /// Nothing that was built is lost when neighbors are set: the entry of every other node is
    /// still held as it was, or it is what has to be merged on disk, and not both.
    pub proof fn lemma_set_conserves(
        &self,
        neighbors_of: ItemPointer,
        entry: NeighborCacheEntry,
        other: ItemPointer,
    )
        requires
            self.wf(),
            other != neighbors_of,
            has_key(self.map().entries, key_of(other)),
        ensures
            ({
                let held = value_of(self.map().entries, key_of(other));
                let after = self.map().after_push(key_of(neighbors_of), entry).entries;
                let merged = self.evicted_request(key_of(neighbors_of)) matches Some(request)
                    && request.neighbors_of == other;
                &&& merged ==> !has_key(after, key_of(other)) && self.evicted_request(
                    key_of(neighbors_of),
                ) == Some(self.merge_request((key_of(other), held), true))
                &&& !merged ==> has_key(after, key_of(other)) && value_of(after, key_of(other))
                    == held
            }),
    {
        let key = key_of(neighbors_of);
        let map = self.map();
        self.neighbor_map.lemma_consistent();
        lemma_key_order(other, neighbors_of);
        lemma_key_roundtrip(other);
        lemma_push_conserves(map, key, entry);
        lemma_pushed(map.entries, map.cap, key, entry);
        let p = position(map.entries, key_of(other));
        let held = map.entries[p];
        assert(map.entries.contains(held));
        let after = map.after_push(key, entry).entries;
        if let Some(left) = map.push_result(key) {
            lemma_key_roundtrip(pointer_of(left.0));
            lemma_position(map.entries, 0);
            if pointer_of(left.0) == other {
                assert(left.0 == key_of(other));
            }
        }
        if after.contains(held) {
            lemma_position(after, after.index_of(held));
        }
    }

    /// How many entries the cache holds at most.
    pub fn cap(&self) -> (r: usize)
        requires
            self.wf(),
        ensures
            r == self.map().cap,
            r > 0,
    {
        self.neighbor_map.cap()
    }

    /// What the cache has counted.
    pub fn stats(&self) -> (r: &CacheStats)
        ensures
            *r == self.map().stats,
    {
        self.neighbor_map.stats()
    }

    /// The notices since this was last asked, oldest first.
    pub fn take_notices(&mut self) -> (r: Vec<CacheNotice>)
        requires
            old(self).wf(),
        ensures
            final(self).wf(),
            final(self).same_settings(old(self)),
            r@ == old(self).map().notices,
            final(self).map() == (CacheView { notices: Seq::empty(), ..old(self).map() }),
    {
        self.neighbor_map.take_notices()
    }
}

/// Where the neighbors of nodes are to be looked for.
pub enum GraphNeighborStore {
    /// In memory first, while an index is built.
    Builder(BuilderNeighborCache),
    /// On disk only.
    Disk,
}

impl GraphNeighborStore {
    pub open spec fn wf(&self) -> bool {
        match self {
            GraphNeighborStore::Builder(b) => b.wf(),
            GraphNeighborStore::Disk => true,
        }
    }

    /// The neighbors of a node, and what has to be merged. The builder looks in memory first;
    /// `read` reads neighbors from disk and `stored_labels` the labels of their node.
    pub fn get_neighbors_with_full_vector_distances<
        R: FnOnce(ItemPointer) -> Vec<NeighborWithDistance>,
        L: FnOnce(ItemPointer) -> Option<LabelSet>,
    >(&mut self, neighbors_of: ItemPointer, read: R, stored_labels: L) -> (r: (
        Vec<NeighborWithDistance>,
        Option<MergeRequest>,
    ))
        requires
            old(self).wf(),
            match *old(self) {
                GraphNeighborStore::Builder(b) => {
                    &&& b.can_count_lookup(key_of(neighbors_of))
                    &&& !has_key(b.map().entries, key_of(neighbors_of)) ==> call_requires(
                        read,
                        (neighbors_of,),
                    ) && call_requires(stored_labels, (neighbors_of,))
                },
                GraphNeighborStore::Disk => call_requires(read, (neighbors_of,)),
            },
        ensures
            final(self).wf(),
            match *old(self) {
                GraphNeighborStore::Builder(b) => {
                    &&& *final(self) matches GraphNeighborStore::Builder(a)
                    &&& a.same_settings(&b)
                    &&& a.looked_up(&b, neighbors_of, read, stored_labels, r.0@, r.1)
                },
                GraphNeighborStore::Disk => {
                    &&& *final(self) is Disk
                    &&& call_ensures(read, (neighbors_of,), r.0)
                    &&& r.1 is None
                },
            },
    {
        match self {
            GraphNeighborStore::Builder(b) => b.get_neighbors_with_full_vector_distances(
                neighbors_of,
                read,
                stored_labels,
            ),
            GraphNeighborStore::Disk => (read(neighbors_of), None),
        }
    }

    /// Prepares a node that was just created. On disk it has no neighbors already. Only the
    /// builder needs an entry before the node is published as a start node.
    pub fn initialize_neighbors<L: FnOnce(ItemPointer) -> Option<LabelSet>>(
        &mut self,
        neighbors_of: ItemPointer,
        labels: Option<LabelSet>,
        stored_labels: L,
    ) -> (r: Option<MergeRequest>)
        requires
            old(self).wf(),
            *old(self) matches GraphNeighborStore::Builder(b) ==> b.can_count_set(
                key_of(neighbors_of),
            ) && (labels is None ==> call_requires(stored_labels, (neighbors_of,))),
        ensures
            final(self).wf(),
            match *old(self) {
                GraphNeighborStore::Builder(b) => {
                    &&& *final(self) matches GraphNeighborStore::Builder(a)
                    &&& a.same_settings(&b)
                    &&& has_key(a.map().entries, key_of(neighbors_of))
                    &&& {
                        let entry = value_of(a.map().entries, key_of(neighbors_of));
                        &&& labels_or_stored(labels, stored_labels, neighbors_of, entry.labels)
                        &&& entry.neighbors@.len() == 0
                        &&& a.map() == b.map().after_push(key_of(neighbors_of), entry)
                    }
                    &&& r == b.evicted_request(key_of(neighbors_of))
                },
                GraphNeighborStore::Disk => *final(self) is Disk && r is None,
            },
    {
        match self {
            GraphNeighborStore::Builder(b) => b.set_neighbors(
                neighbors_of,
                labels,
                stored_labels,
                Vec::new(),
            ),
            GraphNeighborStore::Disk => None,
        }
    }

    /// How many neighbors a node may have.
    pub fn max_neighbors(&self, meta_page: &MetaPage) -> (r: usize)
        ensures
            r == (match self {
                GraphNeighborStore::Builder(_) => meta_page.max_neighbors_during_build,
                GraphNeighborStore::Disk => meta_page.num_neighbors as usize,
            }),
    {
        match self {
            GraphNeighborStore::Builder(_) => meta_page.get_max_neighbors_during_build(),
            GraphNeighborStore::Disk => meta_page.get_num_neighbors() as usize,
        }
    }

    /// The builder's entries, in the order of the nodes that they belong to. A build does not use
    /// the disk store.
    pub fn into_sorted(self) -> (r: Vec<(ItemPointer, NeighborCacheEntry)>)
        requires
            self.wf(),
            self is Builder,
        ensures
            r@.len() == self->Builder_0.map().entries.len(),
            forall|e: (ItemPointer, NeighborCacheEntry)|
                #[trigger] r@.contains(e) <==> by_pointer(
                    self->Builder_0.map().entries,
                ).contains(e),
            forall|i: int, j: int|
                0 <= i < j < r@.len() ==> pointer_before(
                    (#[trigger] r@[i]).0,
                    (#[trigger] r@[j]).0,
                ),
    {
        match self {
            GraphNeighborStore::Builder(b) => b.into_sorted(),
            GraphNeighborStore::Disk => Vec::new(),
        }
    }
}

/// Sorting distinct keys orders the pointers that they stand for, and loses none.
proof fn lemma_sorted_pointers<V>(entries: Seq<(u64, V)>, sorted: Seq<(u64, V)>)
    requires
        distinct_keys(entries),
        pointer_keys(entries),
        sorted.to_multiset() == entries.to_multiset(),
        forall|i: int, j: int|
            0 <= i < j < sorted.len() ==> (#[trigger] sorted[i]).0 <= (#[trigger] sorted[j]).0,
    ensures
        pointer_keys(sorted),
        sorted.len() == entries.len(),
        forall|e: (ItemPointer, V)|
            #[trigger] by_pointer(sorted).contains(e) <==> by_pointer(entries).contains(e),
        forall|i: int, j: int|
            0 <= i < j < sorted.len() ==> pointer_before(
                (#[trigger] by_pointer(sorted)[i]).0,
                (#[trigger] by_pointer(sorted)[j]).0,
            ),
{
    sorted.to_multiset_ensures();
    entries.to_multiset_ensures();
    assert forall|e: (u64, V)| #[trigger] sorted.contains(e) <==> entries.contains(e) by {
        vstd::seq_lib::to_multiset_contains(sorted, e);
        vstd::seq_lib::to_multiset_contains(entries, e);
    }
    assert forall|i: int| 0 <= i < sorted.len() implies (#[trigger] sorted[i]).0 < KEY_LIMIT by {
        assert(sorted.contains(sorted[i]));
        let k = choose|k: int| 0 <= k < entries.len() && entries[k] == sorted[i];
        assert(entries[k].0 < KEY_LIMIT);
    }
    assert forall|e: (ItemPointer, V)|
        #[trigger] by_pointer(sorted).contains(e) <==> by_pointer(entries).contains(e) by {
        if by_pointer(sorted).contains(e) {
            lemma_by_pointer_contains(sorted, entries, e);
        }
        if by_pointer(entries).contains(e) {
            lemma_by_pointer_contains(entries, sorted, e);
        }
    }
    assert(entries.no_duplicates());
    entries.lemma_multiset_has_no_duplicates();
    sorted.lemma_multiset_has_no_duplicates_conv();
    assert forall|i: int, j: int| 0 <= i < j < sorted.len() implies pointer_before(
        (#[trigger] by_pointer(sorted)[i]).0,
        (#[trigger] by_pointer(sorted)[j]).0,
    ) by {
        assert(sorted.contains(sorted[i]) && sorted.contains(sorted[j]));
        let a = choose|k: int| 0 <= k < entries.len() && entries[k] == sorted[i];
        let b = choose|k: int| 0 <= k < entries.len() && entries[k] == sorted[j];
        assert(entries[a].0 != entries[b].0);
        assert(sorted[i].0 <= sorted[j].0);
        lemma_key_order(pointer_of(sorted[i].0), pointer_of(sorted[j].0));
    }
}

proof fn lemma_by_pointer_contains<V>(a: Seq<(u64, V)>, b: Seq<(u64, V)>, e: (ItemPointer, V))
    requires
        forall|p: (u64, V)| #[trigger] a.contains(p) ==> b.contains(p),
        by_pointer(a).contains(e),
    ensures
        by_pointer(b).contains(e),
{
    let i = choose|i: int| 0 <= i < by_pointer(a).len() && by_pointer(a)[i] == e;
    assert(a.contains(a[i]));
    let j = choose|j: int| 0 <= j < b.len() && b[j] == a[i];
    assert(by_pointer(b)[j] == e);
}

} // verus!
