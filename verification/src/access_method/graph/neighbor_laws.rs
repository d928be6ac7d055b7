//! What the builder's cache of neighbors promises: nothing that was built is lost, and what is
//! found or merged is what was set or read.

use vstd::prelude::*;

use crate::access_method::graph::neighbor_store::{
    by_pointer, flushed, labels_or_stored, BuilderNeighborCache, GraphNeighborStore, MergeRequest,
    NeighborCacheEntry, NeighborMergeMode,
};
use crate::access_method::graph::neighbor_with_distance::{
    neighbor_views, pointers_to, NeighborWithDistance,
};
use crate::access_method::labels::{labels_view, LabelSet};
use crate::util::cache_laws::{
    absent, lemma_found, lemma_get_order, lemma_push_order, others, tells,
};
use crate::util::item_pointer::{key_of, ItemPointer};
use crate::util::lru::CacheView;
use crate::util::recency::{has_key, position, value_of};

verus! {

/// Whether two neighbors are the same: the node, its distance, and its labels.
pub open spec fn same_neighbor(a: NeighborWithDistance, b: NeighborWithDistance) -> bool {
    &&& a.index_pointer == b.index_pointer
    &&& a.distance.distance == b.distance.distance
    &&& a.distance.from == b.distance.from
    &&& a.distance.to == b.distance.to
    &&& match (a.labels, b.labels) {
        (Some(x), Some(y)) => x@ == y@,
        (None, None) => true,
        _ => false,
    }
}

/// Whether two lists hold the same neighbors in the same order.
pub open spec fn same_neighbors(
    a: Seq<NeighborWithDistance>,
    b: Seq<NeighborWithDistance>,
) -> bool {
    &&& a.len() == b.len()
    &&& forall|i: int| 0 <= i < a.len() ==> same_neighbor(#[trigger] a[i], b[i])
}

/// Equal views are equal lists of neighbors, and pointers are those of the neighbors.
pub proof fn lemma_views(a: Seq<NeighborWithDistance>, b: Seq<NeighborWithDistance>)
    ensures
        neighbor_views(a) == neighbor_views(b) <==> same_neighbors(a, b),
        pointers_to(a).len() == a.len(),
        forall|i: int| 0 <= i < a.len() ==> #[trigger] pointers_to(a)[i] == a[i].index_pointer,
{
    if neighbor_views(a) == neighbor_views(b) {
        assert(neighbor_views(a).len() == neighbor_views(b).len());
        assert forall|i: int| 0 <= i < a.len() implies same_neighbor(#[trigger] a[i], b[i]) by {
            assert(neighbor_views(a)[i] == neighbor_views(b)[i]);
        }
    }
    if same_neighbors(a, b) {
        assert forall|i: int| 0 <= i < a.len() implies neighbor_views(a)[i] == neighbor_views(
            b,
        )[i] by {
            assert(same_neighbor(a[i], b[i]));
        }
        assert(neighbor_views(a) =~= neighbor_views(b));
    }
}

/// Labels are seen as they are.
pub proof fn lemma_labels_view(labels: Option<LabelSet>)
    ensures
        labels matches Some(set) ==> labels_view(labels) == Some(set@),
        labels is None ==> labels_view(labels) is None,
{
}

/// Whether a request asks for an entry to be merged as it was held: for its node, with its labels
/// and its neighbors, by the settings of the cache.
pub open spec fn asks_for(
    request: MergeRequest,
    cache: &BuilderNeighborCache,
    held: (u64, NeighborCacheEntry),
    always_prune: bool,
) -> bool {
    &&& key_of(request.neighbors_of) == held.0
    &&& request.labels == held.1.labels
    &&& request.neighbors == held.1.neighbors
    &&& request.num_neighbors == cache.num_neighbors()
    &&& request.max_alpha == cache.max_alpha()
    &&& match request.mode {
        NeighborMergeMode::Builder { always_prune: pruned } => pruned == always_prune,
        NeighborMergeMode::Disk => false,
    }
}

/// What leaves the cache is merged as it was held, whether it is evicted or flushed.
pub proof fn lemma_merged_as_held(cache: &BuilderNeighborCache, i: int, always_prune: bool)
    requires
        cache.wf(),
        0 <= i < cache.map().entries.len(),
    ensures
        asks_for(
            cache.merge_request(cache.map().entries[i], always_prune),
            cache,
            cache.map().entries[i],
            always_prune,
        ),
{
    cache.lemma_consistent();
}

/// An entry that comes in for a new node evicts the least recently used one from a full cache,
/// and that is then asked to be merged, and to be pruned in any case. Nothing else is.
pub proof fn lemma_eviction(cache: &BuilderNeighborCache, key: u64)
    requires
        cache.wf(),
    ensures
        ({
            let entries = cache.map().entries;
            if absent(entries, key) && entries.len() == cache.map().cap {
                &&& cache.evicted_request(key) matches Some(request)
                &&& asks_for(request, cache, entries[0], true)
            } else {
                cache.evicted_request(key) is None
            }
        }),
{
    cache.lemma_consistent();
    lemma_found(cache.map().entries, key);
    if cache.map().entries.len() > 0 {
        lemma_merged_as_held(cache, 0, true);
    }
}

/// Whether the entry of every node but `node` is held after as it was before, or else is in the
/// request, and not both.
pub open spec fn loses_nothing(
    before: &BuilderNeighborCache,
    after: CacheView<NeighborCacheEntry>,
    node: ItemPointer,
    request: Option<MergeRequest>,
) -> bool {
    let entries = before.map().entries;
    forall|i: int|
        0 <= i < entries.len() && (#[trigger] entries[i]).0 != key_of(node) ==> {
            let handed_out = request matches Some(r) && asks_for(r, before, entries[i], true);
            handed_out != after.entries.contains(entries[i])
        }
}

/// Setting the neighbors of a node loses nothing of the others.
pub proof fn lemma_set_loses_nothing(
    cache: &BuilderNeighborCache,
    node: ItemPointer,
    entry: NeighborCacheEntry,
)
    requires
        cache.wf(),
    ensures
        loses_nothing(
            cache,
            cache.map().after_push(key_of(node), entry),
            node,
            cache.evicted_request(key_of(node)),
        ),
{
    let map = cache.map();
    let key = key_of(node);
    let after = map.after_push(key, entry);
    let request = cache.evicted_request(key);
    cache.lemma_consistent();
    lemma_eviction(cache, key);
    crate::util::lru::lemma_push_conserves(map, key, entry);
    lemma_push_order(map, key, entry);
    let entries = map.entries;
    assert forall|i: int| 0 <= i < entries.len() && (#[trigger] entries[i]).0 != key implies {
        let handed_out = request matches Some(r) && asks_for(r, cache, entries[i], true);
        handed_out != after.entries.contains(entries[i])
    } by {
        let e = entries[i];
        assert(entries.contains(e));
        if after.entries.contains(e) {
            let j = after.entries.index_of(e);
            assert(after.entries[j] == e);
        }
        if let Some(r) = request {
            if asks_for(r, cache, e, true) {
                // No key is held twice, so it is the first entry.
                assert(e.0 == entries[0].0);
                assert(i == 0);
                assert(!has_key(after.entries, e.0));
            } else {
                assert(i != 0);
                assert(map.push_result(key) != Some(e)) by {
                    if entries[0] == e {
                        assert(entries[0].0 == entries[i].0);
                    }
                }
            }
        }
    }
}

/// A lookup loses nothing of the other nodes, whether it finds the node or fills the cache with
/// what was read for it, and however much that is.
pub proof fn lemma_lookup_loses_nothing<
    R: FnOnce(ItemPointer) -> Vec<NeighborWithDistance>,
    L: FnOnce(ItemPointer) -> Option<LabelSet>,
>(
    before: &BuilderNeighborCache,
    after: &BuilderNeighborCache,
    node: ItemPointer,
    read: R,
    stored_labels: L,
    neighbors: Seq<NeighborWithDistance>,
    request: Option<MergeRequest>,
)
    requires
        before.wf(),
        after.looked_up(before, node, read, stored_labels, neighbors, request),
    ensures
        loses_nothing(before, after.map(), node, request),
{
    let key = key_of(node);
    let entries = before.map().entries;
    before.lemma_consistent();
    lemma_found(entries, key);
    if has_key(entries, key) {
        lemma_held_after_get(before.map(), key);
    } else {
        let entry = value_of(after.map().entries, key);
        lemma_set_loses_nothing(before, node, entry);
        lemma_get_order(before.map(), key);
        assert(after.map().entries == before.map().after_push(key, entry).entries);
    }
}

/// A lookup in the cache keeps every entry.
proof fn lemma_held_after_get(map: CacheView<NeighborCacheEntry>, key: u64)
    requires
        map.consistent(),
    ensures
        forall|i: int|
            0 <= i < map.entries.len() ==> map.after_get(key).entries.contains(
                #[trigger] map.entries[i],
            ),
{
    let after = map.after_get(key).entries;
    assert forall|i: int| 0 <= i < map.entries.len() implies after.contains(
        #[trigger] map.entries[i],
    ) by {
        if has_key(map.entries, key) {
            let p = position(map.entries, key);
            assert(map.entries[p].0 == key);
            let j = if i < p {
                i
            } else if i == p {
                after.len() - 1
            } else {
                i - 1
            };
            assert(after[j] == map.entries[i]);
        } else {
            assert(after[i] == map.entries[i]);
        }
    }
}

/// A lookup gives the neighbors that are held for the node. Only where none are held, it gives
/// what was read for it, all of it and in that order; the cache holds the same from then on, with
/// the labels that were read.
pub proof fn lemma_lookup_answers<
    R: FnOnce(ItemPointer) -> Vec<NeighborWithDistance>,
    L: FnOnce(ItemPointer) -> Option<LabelSet>,
>(
    before: &BuilderNeighborCache,
    after: &BuilderNeighborCache,
    node: ItemPointer,
    read: R,
    stored_labels: L,
    neighbors: Seq<NeighborWithDistance>,
    request: Option<MergeRequest>,
)
    requires
        before.wf(),
        after.looked_up(before, node, read, stored_labels, neighbors, request),
    ensures
        forall|i: int|
            0 <= i < before.map().entries.len() && (#[trigger] before.map().entries[i]).0
                == key_of(node) ==> {
                &&& same_neighbors(neighbors, before.map().entries[i].1.neighbors@)
                &&& after.map().entries.last() == before.map().entries[i]
                &&& request is None
            },
        absent(before.map().entries, key_of(node)) ==> {
            &&& exists|found: Vec<NeighborWithDistance>| #[trigger]
                call_ensures(read, (node,), found) && neighbors == found@
            &&& after.map().entries.len() > 0
            &&& after.map().entries.last().0 == key_of(node)
            &&& same_neighbors(after.map().entries.last().1.neighbors@, neighbors)
            &&& call_ensures(stored_labels, (node,), after.map().entries.last().1.labels)
        },
        after.map().cap == before.map().cap,
{
    let key = key_of(node);
    let entries = before.map().entries;
    before.lemma_consistent();
    lemma_found(entries, key);
    lemma_get_order(before.map(), key);
    if has_key(entries, key) {
        let held = value_of(entries, key);
        lemma_views(neighbors, held.neighbors@);
    } else {
        let entry = value_of(after.map().entries, key);
        lemma_push_order(before.map(), key, entry);
        lemma_views(entry.neighbors@, neighbors);
        assert(after.map().entries == before.map().after_push(key, entry).entries);
    }
}

/// A lookup keeps the order of the other entries and counts one hit, or one miss and one insertion.
/// Where it fills a full cache, the least recently used entry leaves; that is counted and told.
pub proof fn lemma_lookup_order<
    R: FnOnce(ItemPointer) -> Vec<NeighborWithDistance>,
    L: FnOnce(ItemPointer) -> Option<LabelSet>,
>(
    before: &BuilderNeighborCache,
    after: &BuilderNeighborCache,
    node: ItemPointer,
    read: R,
    stored_labels: L,
    neighbors: Seq<NeighborWithDistance>,
    request: Option<MergeRequest>,
)
    requires
        before.wf(),
        before.map().stats.hits < usize::MAX,
        before.map().stats.misses < usize::MAX,
        before.map().stats.inserts < usize::MAX,
        after.looked_up(before, node, read, stored_labels, neighbors, request),
    ensures
        ({
            let key = key_of(node);
            let entries = before.map().entries;
            let missed = absent(entries, key);
            let evicts = missed && entries.len() == before.map().cap;
            let one = if missed {
                1int
            } else {
                0
            };
            &&& others(after.map().entries, key) == (if evicts {
                entries.drop_first()
            } else {
                others(entries, key)
            })
            &&& after.map().stats.hits == before.map().stats.hits + 1 - one
            &&& after.map().stats.misses == before.map().stats.misses + one
            &&& after.map().stats.inserts == before.map().stats.inserts + one
            &&& after.map().stats.updates == before.map().stats.updates
            &&& after.map().stats.evictions == before.map().stats.evictions + if evicts {
                1int
            } else {
                0
            }
            &&& after.map().name == before.map().name
            &&& tells(before.map(), after.map())
            &&& evicts == (request is Some)
        }),
{
    let key = key_of(node);
    let entries = before.map().entries;
    before.lemma_consistent();
    lemma_found(entries, key);
    lemma_get_order(before.map(), key);
    lemma_eviction(before, key);
    if !has_key(entries, key) {
        let entry = value_of(after.map().entries, key);
        lemma_push_order(before.map(), key, entry);
        assert(after.map().entries == before.map().after_push(key, entry).entries);
    }
}

/// Given labels are kept, and those on disk where none are given.
pub proof fn lemma_labels_kept<L: FnOnce(ItemPointer) -> Option<LabelSet>>(
    labels: Option<LabelSet>,
    stored: L,
    node: ItemPointer,
    r: Option<LabelSet>,
)
    requires
        labels_or_stored(labels, stored, node, r),
    ensures
        labels is Some ==> r == labels,
        labels is None ==> call_ensures(stored, (node,), r),
{
}

/// A flush empties the cache, counts every entry as evicted, and changes nothing else.
pub proof fn lemma_flush_empties<V>(map: CacheView<V>)
    requires
        map.consistent(),
    ensures
        flushed(map).entries.len() == 0,
        flushed(map).stats.evictions == map.stats.evictions + map.entries.len(),
        flushed(map).stats.inserts == map.stats.inserts,
        flushed(map).stats.updates == map.stats.updates,
        flushed(map).stats.hits == map.stats.hits,
        flushed(map).stats.misses == map.stats.misses,
        flushed(map).cap == map.cap,
        flushed(map).name == map.name,
        flushed(map).notices == map.notices,
        flushed(map).consistent(),
{
}

/// Entries by node are the entries of the cache, each with the node that its key stands for.
pub proof fn lemma_by_pointer(cache: &BuilderNeighborCache)
    requires
        cache.wf(),
    ensures
        by_pointer(cache.map().entries).len() == cache.map().entries.len(),
        forall|i: int|
            0 <= i < cache.map().entries.len() ==> {
                &&& key_of((#[trigger] by_pointer(cache.map().entries)[i]).0)
                    == cache.map().entries[i].0
                &&& by_pointer(cache.map().entries)[i].1 == cache.map().entries[i].1
            },
{
    cache.lemma_consistent();
}

/// A store can be asked as long as no counter is at its end, and the settings of a cache are what
/// bounds and prunes its merges.
pub proof fn lemma_usable(a: &BuilderNeighborCache, b: &BuilderNeighborCache, key: u64)
    ensures
        ({
            let stats = a.map().stats;
            &&& stats.hits < usize::MAX && stats.misses < usize::MAX && stats.inserts < usize::MAX
                ==> a.can_count_lookup(key)
            &&& stats.updates < usize::MAX && stats.inserts < usize::MAX ==> a.can_count_set(key)
        }),
        a.same_settings(b) <==> a.num_neighbors() == b.num_neighbors() && a.max_alpha()
            == b.max_alpha(),
        (GraphNeighborStore::Disk).wf(),
        GraphNeighborStore::Builder(*a).wf() == a.wf(),
{
}

} // verus!
