//! What a search and a scan of edges promise, over a disk whose nodes do not change meanwhile and
//! a distance function that answers by its arguments alone.

use vstd::prelude::*;

use crate::access_method::distance::measured;
use crate::access_method::graph::list_search::ListSearchNeighbor;
use crate::access_method::graph::neighbor_laws::{
    asks_for, lemma_eviction, lemma_views, same_neighbor,
};
use crate::access_method::graph::neighbor_store::{
    BuilderNeighborCache, GraphNeighborStore, MergeRequest,
};
use crate::access_method::graph::neighbor_with_distance::{
    pointers_to, Distance, NeighborWithDistance,
};
use crate::access_method::stats::NodeStats;
use crate::util::cache_laws::{
    absent, lemma_found, lemma_get_order, lemma_push_order, others, tells,
};
use crate::util::item_pointer::{
    key_of, HeapPointer, IndexPointer, ItemPointer, INVALID_BLOCK_NUMBER, INVALID_OFFSET,
};
use crate::util::lru::lemma_push_conserves;
use crate::util::recency::{has_key, position, value_of};

use super::node::PlainNode;
use super::storage::{
    built, can_look_up, counter_room, edge_of, edges_of, edges_readable, lsn_of, lsns_of,
    measurable, merged, mergeable, queryable, scanned, PlainStorageLsnPrivateData,
};

verus! {

/// What stands on a disk: for every place the vector, the edges and the row of the node there.
#[verifier::reject_recursive_types(E)]
pub struct Disk<E> {
    pub vector: spec_fn(ItemPointer) -> Seq<E>,
    pub edges: spec_fn(ItemPointer) -> Seq<ItemPointer>,
    pub row: spec_fn(ItemPointer) -> HeapPointer,
}

/// Whether `read` gives the nodes of the disk.
pub open spec fn reads_from<E, R: Fn(IndexPointer) -> PlainNode<E>>(
    read: R,
    disk: Disk<E>,
) -> bool {
    forall|p: IndexPointer, node: PlainNode<E>| #[trigger]
        call_ensures(read, (p,), node) ==> {
            &&& node.vector@ == (disk.vector)(p)
            &&& node.neighbors@ == (disk.edges)(p)
            &&& node.heap_item_pointer == (disk.row)(p)
        }
}

/// Whether `f` answers by `distance`.
pub open spec fn computes<E, F: Fn(&[E], &[E]) -> Distance>(
    f: F,
    distance: spec_fn(Seq<E>, Seq<E>) -> Distance,
) -> bool {
    forall|s: &[E], t: &[E], d: Distance| #[trigger]
        call_ensures(f, (s, t), d) ==> d == distance(s@, t@)
}

/// A distance that was measured is the one between the two vectors, in this order.
pub proof fn lemma_measured<E, F: Fn(&[E], &[E]) -> Distance>(
    f: F,
    distance: spec_fn(Seq<E>, Seq<E>) -> Distance,
    a: Seq<E>,
    b: Seq<E>,
    d: Distance,
)
    requires
        computes(f, distance),
        measured(f, a, b, d),
    ensures
        d == distance(a, b),
{
}

/// A scan gives one edge for each neighbor of the node, however many there are, in the order in
/// which they stand there. Each leads from the node to the neighbor, and has no labels.
pub proof fn lemma_edges_complete<
    E,
    F: Fn(&[E], &[E]) -> Distance,
    R: Fn(IndexPointer) -> PlainNode<E>,
>(f: F, read: R, from: ItemPointer, source: PlainNode<E>, edges: Seq<NeighborWithDistance>)
    requires
        edges_of(f, read, from, source, edges),
    ensures
        edges.len() == source.neighbors@.len(),
        pointers_to(edges) == source.neighbors@,
        forall|i: int|
            0 <= i < source.neighbors@.len() ==> {
                &&& (#[trigger] edges[i]).index_pointer == source.neighbors@[i]
                &&& edges[i].distance.from == from
                &&& edges[i].distance.to == source.neighbors@[i]
                &&& edges[i].labels is None
            },
{
    assert(pointers_to(edges) =~= source.neighbors@);
}

/// A scan measures each edge: the distance is the one from the neighbor's vector to the node's.
pub proof fn lemma_edges_measured<
    E,
    F: Fn(&[E], &[E]) -> Distance,
    R: Fn(IndexPointer) -> PlainNode<E>,
>(
    f: F,
    read: R,
    disk: Disk<E>,
    distance: spec_fn(Seq<E>, Seq<E>) -> Distance,
    from: ItemPointer,
    source: PlainNode<E>,
    edges: Seq<NeighborWithDistance>,
)
    requires
        reads_from(read, disk),
        computes(f, distance),
        edges_of(f, read, from, source, edges),
    ensures
        forall|i: int|
            0 <= i < source.neighbors@.len() ==> (#[trigger] edges[i]).distance.distance
                == distance((disk.vector)(source.neighbors@[i]), source.vector@),
{
    assert forall|i: int| 0 <= i < source.neighbors@.len() implies (
    #[trigger] edges[i]).distance.distance == distance(
        (disk.vector)(source.neighbors@[i]),
        source.vector@,
    ) by {
        assert(edge_of(f, read, source.vector@, from, source.neighbors@[i], edges[i]));
    }
}

/// Whether `lsn` is right of the node at `p`: it has the distance of that node's vector from the
/// query's, the row of the node, and the neighbors that the store has of it. These are the edges
/// of the node on disk, unless the builder's cache holds others.
pub open spec fn right_of<E>(
    disk: Disk<E>,
    distance: spec_fn(Seq<E>, Seq<E>) -> Distance,
    query: (Seq<E>, Option<ItemPointer>),
    store: GraphNeighborStore,
    p: IndexPointer,
    lsn: ListSearchNeighbor<PlainStorageLsnPrivateData>,
) -> bool {
    let neighbors = lsn.private_data.neighbors@;
    &&& lsn.index_pointer == p
    &&& lsn.distance.distance == distance(query.0, (disk.vector)(p))
    &&& lsn.distance.to == p
    &&& query.1 matches Some(from) ==> lsn.distance.from == from
    &&& query.1 is None ==> lsn.distance.from.block_number == INVALID_BLOCK_NUMBER
        && lsn.distance.from.offset == INVALID_OFFSET
    &&& lsn.private_data.heap_pointer == (disk.row)(p)
    &&& store is Disk ==> neighbors == (disk.edges)(p)
    &&& store matches GraphNeighborStore::Builder(b) ==> {
        let entries = b.map().entries;
        &&& absent(entries, key_of(p)) ==> neighbors == (disk.edges)(p)
        &&& forall|i: int|
            0 <= i < entries.len() && (#[trigger] entries[i]).0 == key_of(p) ==> {
                &&& neighbors.len() == entries[i].1.neighbors@.len()
                &&& forall|j: int|
                    0 <= j < neighbors.len() ==> #[trigger] neighbors[j]
                        == entries[i].1.neighbors@[j].index_pointer
            }
    }
}

/// What a search learns of a node is right, with either kind of store.
pub proof fn lemma_learned<
    E,
    F: Fn(&[E], &[E]) -> Distance,
    R: Fn(IndexPointer) -> PlainNode<E>,
    M: Fn(MergeRequest) -> NodeStats,
>(
    f: F,
    read: R,
    merge: M,
    disk: Disk<E>,
    distance: spec_fn(Seq<E>, Seq<E>) -> Distance,
    query: (Seq<E>, Option<ItemPointer>),
    p: IndexPointer,
    before: (GraphNeighborStore, NodeStats),
    after: (GraphNeighborStore, NodeStats),
    lsn: ListSearchNeighbor<PlainStorageLsnPrivateData>,
)
    requires
        reads_from(read, disk),
        computes(f, distance),
        before.0.wf(),
        lsn_of(f, query, read, merge, p, before, after, lsn),
    ensures
        right_of(disk, distance, query, before.0, p, lsn),
{
    let node = choose|node: PlainNode<E>| #[trigger]
        call_ensures(read, (p,), node) && {
            &&& measured(f, query.0, node.vector@, lsn.distance.distance)
            &&& lsn.private_data.heap_pointer == node.heap_item_pointer
            &&& before.0 is Disk ==> lsn.private_data.neighbors@ == node.neighbors@
        };
    lemma_measured(f, distance, query.0, node.vector@, lsn.distance.distance);
    if let GraphNeighborStore::Builder(b) = before.0 {
        let key = key_of(p);
        b.lemma_consistent();
        let entries = b.map().entries;
        lemma_found(entries, key);
        if has_key(entries, key) {
            lemma_views(value_of(entries, key).neighbors@, Seq::empty());
        } else {
            let a = after.0->Builder_0;
            let (source, edges) = choose|source: PlainNode<E>, edges: Seq<NeighborWithDistance>|
                {
                    &&& #[trigger] call_ensures(read, (p,), source)
                    &&& #[trigger] edges_of(f, read, p, source, edges)
                    &&& a.filled(&b, key, None, edges)
                    &&& merged(merge, b.evicted_request(key), scanned(before.1, source), after.1)
                    &&& lsn.private_data.neighbors@ == pointers_to(edges)
                };
            lemma_edges_complete(f, read, p, source, edges);
        }
    }
}

/// What a visit learns is right of every node, one for each and in their order: each of the
/// nodes by the store as it was when that node was looked at.
pub proof fn lemma_all_learned<
    E,
    F: Fn(&[E], &[E]) -> Distance,
    R: Fn(IndexPointer) -> PlainNode<E>,
    M: Fn(MergeRequest) -> NodeStats,
>(
    f: F,
    read: R,
    merge: M,
    disk: Disk<E>,
    distance: spec_fn(Seq<E>, Seq<E>) -> Distance,
    query: (Seq<E>, Option<ItemPointer>),
    nodes: Seq<ItemPointer>,
    states: Seq<(GraphNeighborStore, NodeStats)>,
    lsns: Seq<ListSearchNeighbor<PlainStorageLsnPrivateData>>,
)
    requires
        reads_from(read, disk),
        computes(f, distance),
        lsns_of(f, query, read, merge, nodes, states, lsns),
    ensures
        lsns.len() == nodes.len(),
        forall|i: int|
            0 <= i < nodes.len() ==> right_of(
                disk,
                distance,
                query,
                states[i].0,
                nodes[i],
                #[trigger] lsns[i],
            ),
{
    assert forall|i: int| 0 <= i < nodes.len() implies right_of(
        disk,
        distance,
        query,
        states[i].0,
        nodes[i],
        #[trigger] lsns[i],
    ) by {
        assert(lsn_of(f, query, read, merge, nodes[i], states[i], states[i + 1], lsns[i]));
        lemma_learned(
            f,
            read,
            merge,
            disk,
            distance,
            query,
            nodes[i],
            states[i],
            states[i + 1],
            lsns[i],
        );
    }
}

/// A search loses nothing of what was built. The entry of every node but the one that is looked
/// at is held after as it was before, or it was merged as it was held; and the node's own entry
/// is held.
pub proof fn lemma_search_loses_nothing<
    E,
    F: Fn(&[E], &[E]) -> Distance,
    R: Fn(IndexPointer) -> PlainNode<E>,
    M: Fn(MergeRequest) -> NodeStats,
>(
    f: F,
    query: (Seq<E>, Option<ItemPointer>),
    read: R,
    merge: M,
    p: IndexPointer,
    before: (GraphNeighborStore, NodeStats),
    after: (GraphNeighborStore, NodeStats),
    lsn: ListSearchNeighbor<PlainStorageLsnPrivateData>,
)
    requires
        before.0.wf(),
        lsn_of(f, query, read, merge, p, before, after, lsn),
    ensures
        before.0 is Disk ==> after.0 is Disk,
        before.0 matches GraphNeighborStore::Builder(b) ==> {
            &&& after.0 matches GraphNeighborStore::Builder(a)
            &&& a.map().cap == b.map().cap
            &&& a.num_neighbors() == b.num_neighbors()
            &&& a.max_alpha() == b.max_alpha()
            &&& a.map().entries.len() > 0
            &&& a.map().entries.last().0 == key_of(p)
            &&& forall|i: int|
                0 <= i < b.map().entries.len() && (#[trigger] b.map().entries[i]).0 == key_of(p)
                    ==> a.map().entries.last() == b.map().entries[i]
            &&& forall|i: int|
                0 <= i < b.map().entries.len() && (#[trigger] b.map().entries[i]).0 != key_of(p)
                    ==> a.map().entries.contains(b.map().entries[i]) || was_merged(
                    merge,
                    &b,
                    i,
                )
        },
{
    if let GraphNeighborStore::Builder(b) = before.0 {
        let key = key_of(p);
        let a = after.0->Builder_0;
        let entries = b.map().entries;
        b.lemma_consistent();
        lemma_found(entries, key);
        lemma_get_order(b.map(), key);
        if has_key(entries, key) {
            let q = position(entries, key);
            assert(entries[q].0 == key);
            assert forall|i: int| 0 <= i < entries.len() && (#[trigger] entries[i]).0
                != key implies a.map().entries.contains(entries[i]) by {
                let j = if i < q {
                    i
                } else {
                    i - 1
                };
                assert(a.map().entries[j] == entries[i]);
            }
        } else {
            let entry = value_of(a.map().entries, key);
            assert(a.map().entries == b.map().after_push(key, entry).entries);
            lemma_push_order(b.map(), key, entry);
            lemma_push_conserves(b.map(), key, entry);
            lemma_eviction(&b, key);
            let (source, edges) = choose|source: PlainNode<E>, edges: Seq<NeighborWithDistance>|
                {
                    &&& #[trigger] call_ensures(read, (p,), source)
                    &&& #[trigger] edges_of(f, read, p, source, edges)
                    &&& a.filled(&b, key, None, edges)
                    &&& merged(merge, b.evicted_request(key), scanned(before.1, source), after.1)
                    &&& lsn.private_data.neighbors@ == pointers_to(edges)
                };
            assert forall|i: int| 0 <= i < entries.len() && (#[trigger] entries[i]).0
                != key implies a.map().entries.contains(entries[i]) || was_merged(
                merge,
                &b,
                i,
            ) by {
                assert(entries.contains(entries[i]));
                if !a.map().entries.contains(entries[i]) {
                    assert(b.map().push_result(key) == Some(entries[i]));
                    let request = b.evicted_request(key)->0;
                    let counts = choose|counts: NodeStats| #[trigger]
                        call_ensures(merge, (request,), counts) && after.1 == scanned(
                            before.1,
                            source,
                        ).plus(counts);
                    assert(call_ensures(merge, (request,), counts));
                    assert(asks_for(request, &b, entries[i], true));
                }
            }
        }
    }
}

/// What a search leaves in the builder's cache. A node that was not held is held then, without
/// labels, with its edges on disk in their order and the distance of each. The other entries keep
/// their order; where the cache was full, the least recently used one leaves. One hit is counted,
/// or one miss and one insertion.
pub proof fn lemma_search_keeps<
    E,
    F: Fn(&[E], &[E]) -> Distance,
    R: Fn(IndexPointer) -> PlainNode<E>,
    M: Fn(MergeRequest) -> NodeStats,
>(
    f: F,
    read: R,
    merge: M,
    disk: Disk<E>,
    distance: spec_fn(Seq<E>, Seq<E>) -> Distance,
    query: (Seq<E>, Option<ItemPointer>),
    p: IndexPointer,
    before: (GraphNeighborStore, NodeStats),
    after: (GraphNeighborStore, NodeStats),
    lsn: ListSearchNeighbor<PlainStorageLsnPrivateData>,
)
    requires
        reads_from(read, disk),
        computes(f, distance),
        before.0.wf(),
        lsn_of(f, query, read, merge, p, before, after, lsn),
        before.0 matches GraphNeighborStore::Builder(b) ==> b.map().stats.hits < usize::MAX
            && b.map().stats.misses < usize::MAX && b.map().stats.inserts < usize::MAX,
    ensures
        before.0 matches GraphNeighborStore::Builder(b) ==> {
            let entries = b.map().entries;
            let missed = absent(entries, key_of(p));
            let evicts = missed && entries.len() == b.map().cap;
            let one = if missed {
                1int
            } else {
                0
            };
            &&& after.0 matches GraphNeighborStore::Builder(a)
            &&& missed ==> {
                let kept = a.map().entries.last().1;
                &&& kept.labels is None
                &&& kept.neighbors@.len() == (disk.edges)(p).len()
                &&& forall|i: int|
                    0 <= i < kept.neighbors@.len() ==> {
                        &&& (#[trigger] kept.neighbors@[i]).index_pointer == (disk.edges)(p)[i]
                        &&& kept.neighbors@[i].labels is None
                        &&& kept.neighbors@[i].distance.from == p
                        &&& kept.neighbors@[i].distance.to == (disk.edges)(p)[i]
                        &&& kept.neighbors@[i].distance.distance == distance(
                            (disk.vector)((disk.edges)(p)[i]),
                            (disk.vector)(p),
                        )
                    }
            }
            &&& others(a.map().entries, key_of(p)) == (if evicts {
                entries.drop_first()
            } else {
                others(entries, key_of(p))
            })
            &&& a.map().stats.hits == b.map().stats.hits + 1 - one
            &&& a.map().stats.misses == b.map().stats.misses + one
            &&& a.map().stats.inserts == b.map().stats.inserts + one
            &&& a.map().stats.updates == b.map().stats.updates
            &&& a.map().stats.evictions == b.map().stats.evictions + if evicts {
                1int
            } else {
                0
            }
            &&& a.map().name == b.map().name
            &&& tells(b.map(), a.map())
        },
{
    if let GraphNeighborStore::Builder(b) = before.0 {
        let key = key_of(p);
        let a = after.0->Builder_0;
        let entries = b.map().entries;
        b.lemma_consistent();
        lemma_found(entries, key);
        lemma_get_order(b.map(), key);
        if !has_key(entries, key) {
            let entry = value_of(a.map().entries, key);
            assert(a.map().entries == b.map().after_push(key, entry).entries);
            lemma_push_order(b.map(), key, entry);
            let (source, edges) = choose|source: PlainNode<E>, edges: Seq<NeighborWithDistance>|
                {
                    &&& #[trigger] call_ensures(read, (p,), source)
                    &&& #[trigger] edges_of(f, read, p, source, edges)
                    &&& a.filled(&b, key, None, edges)
                    &&& merged(merge, b.evicted_request(key), scanned(before.1, source), after.1)
                    &&& lsn.private_data.neighbors@ == pointers_to(edges)
                };
            lemma_views(entry.neighbors@, edges);
            lemma_edges_complete(f, read, p, source, edges);
            lemma_edges_measured(f, read, disk, distance, p, source, edges);
            assert forall|i: int| 0 <= i < entry.neighbors@.len() implies same_neighbor(
                #[trigger] entry.neighbors@[i],
                edges[i],
            ) by {}
        }
    }
}

/// Whether the entry at place `i` was handed to `merge` as it was held.
pub open spec fn was_merged<M: Fn(MergeRequest) -> NodeStats>(
    merge: M,
    cache: &BuilderNeighborCache,
    i: int,
) -> bool {
    exists|request: MergeRequest, counts: NodeStats| #[trigger]
        call_ensures(merge, (request,), counts) && asks_for(
            request,
            cache,
            cache.map().entries[i],
            true,
        )
}

/// What a lookup for a search counts. Nothing, where the node is held. Else a read of the node
/// and of each of its neighbors, a comparison with each of these, and what a merge counted.
pub proof fn lemma_search_counts<
    E,
    F: Fn(&[E], &[E]) -> Distance,
    R: Fn(IndexPointer) -> PlainNode<E>,
    M: Fn(MergeRequest) -> NodeStats,
>(
    f: F,
    read: R,
    merge: M,
    disk: Disk<E>,
    query: (Seq<E>, Option<ItemPointer>),
    p: IndexPointer,
    before: (GraphNeighborStore, NodeStats),
    after: (GraphNeighborStore, NodeStats),
    lsn: ListSearchNeighbor<PlainStorageLsnPrivateData>,
)
    requires
        reads_from(read, disk),
        before.0.wf(),
        lsn_of(f, query, read, merge, p, before, after, lsn),
        before.1.reads + 1 + (disk.edges)(p).len() <= usize::MAX,
        before.1.full_distance_comparisons + (disk.edges)(p).len() <= usize::MAX,
    ensures
        before.0 is Disk ==> after.1 == before.1,
        before.0 matches GraphNeighborStore::Builder(b) ==> {
            let n = (disk.edges)(p).len();
            let entries = b.map().entries;
            &&& !absent(entries, key_of(p)) ==> after.1 == before.1
            &&& absent(entries, key_of(p)) && entries.len() < b.map().cap ==> {
                &&& after.1.reads == before.1.reads + 1 + n
                &&& after.1.full_distance_comparisons == before.1.full_distance_comparisons + n
                &&& after.1.writes == before.1.writes
                &&& after.1.heap_reads == before.1.heap_reads
                &&& after.1.unchanged == before.1.unchanged
            }
            &&& absent(entries, key_of(p)) && entries.len() == b.map().cap ==> exists|
                request: MergeRequest,
                counts: NodeStats,
            | #[trigger]
                call_ensures(merge, (request,), counts) && {
                    &&& asks_for(request, &b, entries[0], true)
                    &&& after.1.reads == (before.1.reads + 1 + n + counts.reads) as usize
                    &&& after.1.full_distance_comparisons == (before.1.full_distance_comparisons + n
                        + counts.full_distance_comparisons) as usize
                    &&& after.1.writes == (before.1.writes + counts.writes) as usize
                    &&& after.1.heap_reads == (before.1.heap_reads + counts.heap_reads) as usize
                    &&& after.1.unchanged == (before.1.unchanged + counts.unchanged) as usize
                }
        },
{
    if let GraphNeighborStore::Builder(b) = before.0 {
        let key = key_of(p);
        let entries = b.map().entries;
        b.lemma_consistent();
        lemma_found(entries, key);
        lemma_eviction(&b, key);
        if !has_key(entries, key) {
            let a = after.0->Builder_0;
            let (source, edges) = choose|source: PlainNode<E>, edges: Seq<NeighborWithDistance>|
                {
                    &&& #[trigger] call_ensures(read, (p,), source)
                    &&& #[trigger] edges_of(f, read, p, source, edges)
                    &&& a.filled(&b, key, None, edges)
                    &&& merged(merge, b.evicted_request(key), scanned(before.1, source), after.1)
                    &&& lsn.private_data.neighbors@ == pointers_to(edges)
                };
            assert(source.neighbors@ == (disk.edges)(p));
            if let Some(request) = b.evicted_request(key) {
                let counts = choose|counts: NodeStats| #[trigger]
                    call_ensures(merge, (request,), counts) && after.1 == scanned(
                        before.1,
                        source,
                    ).plus(counts);
                assert(call_ensures(merge, (request,), counts));
            }
        }
    }
}

/// Whether `read` reads every node, each with a vector of `dimensions` elements and fewer than
/// `limit` neighbors.
pub open spec fn reads_all<E, R: Fn(IndexPointer) -> PlainNode<E>>(
    read: R,
    dimensions: nat,
    limit: int,
) -> bool {
    &&& forall|p: IndexPointer| #[trigger] call_requires(read, (p,))
    &&& forall|p: IndexPointer, node: PlainNode<E>| #[trigger]
        call_ensures(read, (p,), node) ==> node.vector@.len() == dimensions
            && node.neighbors@.len() < limit
}

/// A search can be made over nodes with vectors as long as the query's, by a distance function
/// that takes vectors of that length; nothing more is asked.
pub proof fn lemma_searchable<
    E,
    F: Fn(&[E], &[E]) -> Distance,
    R: Fn(IndexPointer) -> PlainNode<E>,
    M: Fn(MergeRequest) -> NodeStats,
>(
    f: F,
    read: R,
    merge: M,
    vector: Seq<E>,
    p: IndexPointer,
    request: MergeRequest,
    room: int,
)
    requires
        vector.len() > 0,
        reads_all(read, vector.len(), room / 2),
        forall|s: &[E], t: &[E]|
            s@.len() == vector.len() && t@.len() == vector.len() ==> #[trigger] call_requires(
                f,
                (s, t),
            ),
        call_requires(merge, (request,)),
        forall|counts: NodeStats| #[trigger]
            call_ensures(merge, (request,), counts) ==> {
                &&& counts.reads <= room / 2
                &&& counts.writes <= room / 2
                &&& counts.heap_reads <= room / 2
                &&& counts.full_distance_comparisons <= room / 2
                &&& counts.unchanged <= room / 2
            },
        room >= 0,
    ensures
        queryable(f, read, p, vector),
        measurable(f, read, p, vector),
        edges_readable(f, read, p, room),
        mergeable(read, merge, p, request, room),
{
}

/// How much room counters have: as much as the largest leaves.
pub proof fn lemma_counter_room(stats: NodeStats, room: int)
    ensures
        room <= counter_room(stats) <==> {
            &&& stats.reads + room <= usize::MAX
            &&& stats.writes + room <= usize::MAX
            &&& stats.heap_reads + room <= usize::MAX
            &&& stats.full_distance_comparisons + room <= usize::MAX
            &&& stats.unchanged + room <= usize::MAX
        },
{
}

/// Nodes can be looked up one after the other where each of them can with its share of the
/// counters.
pub proof fn lemma_all_searchable<
    E,
    F: Fn(&[E], &[E]) -> Distance,
    R: Fn(IndexPointer) -> PlainNode<E>,
    M: Fn(MergeRequest) -> NodeStats,
>(
    f: F,
    read: R,
    merge: M,
    nodes: Seq<ItemPointer>,
    builder: BuilderNeighborCache,
    stats: NodeStats,
)
    requires
        forall|i: int|
            0 <= i < nodes.len() ==> edges_readable(
                f,
                read,
                #[trigger] nodes[i],
                counter_room(stats) / (nodes.len() as int),
            ),
        forall|i: int, request: MergeRequest|
            0 <= i < nodes.len() ==> #[trigger] mergeable(
                read,
                merge,
                nodes[i],
                request,
                counter_room(stats) / (nodes.len() as int),
            ),
        builder.map().stats.hits + nodes.len() <= usize::MAX,
        builder.map().stats.misses + nodes.len() <= usize::MAX,
        builder.map().stats.inserts + nodes.len() <= usize::MAX,
    ensures
        can_look_up(f, read, merge, nodes, builder, stats),
{
}

} // verus!
