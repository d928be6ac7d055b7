//! Storage that keeps vectors in full.
//!
//! Nodes are read by functions that the caller hands in, and written by the caller: what is said
//! here is what is asked of them, and what is made of their answers.

use vstd::prelude::*;

use crate::access_method::distance::{accepts, comparable, measured};
use crate::access_method::graph::list_search::{
    marked, query_distance, unseen, ListSearchNeighbor, ListSearchResult,
};
use crate::access_method::graph::neighbor_store::{
    BuilderNeighborCache, GraphNeighborStore, MergeRequest,
};
use crate::access_method::graph::neighbor_with_distance::{
    index_pointers, pointers_to, Distance, DistanceWithTieBreak, NeighborWithDistance,
};
use crate::access_method::labels::{LabelSet, LabeledVector};
use crate::access_method::meta_page::MetaPage;
use crate::access_method::stats::NodeStats;
use crate::util::item_pointer::{key_of, HeapPointer, IndexPointer, ItemPointer};
use crate::util::page::PageType;
use crate::util::recency::{has_key, value_of};

use super::node::{copy_of, PlainNode};
use super::{IndexFullDistanceMeasure, PlainDistanceMeasure};

verus! {

/// The storage: the distance function of the index, the attribute of the table that holds the
/// vectors, and how many neighbors a node has at most.
pub struct PlainStorage<F> {
    pub distance_fn: F,
    pub heap_attr: i16,
    pub num_neighbors: u32,
}

impl<F> PlainStorage<F> {
    pub fn new_for_build(distance_fn: F, heap_attr: i16, meta_page: &MetaPage) -> (r: Self)
        ensures
            r == (PlainStorage { distance_fn, heap_attr, num_neighbors: meta_page.num_neighbors }),
    {
        PlainStorage { distance_fn, heap_attr, num_neighbors: meta_page.get_num_neighbors() }
    }

    pub fn load_for_insert(distance_fn: F, heap_attr: i16, meta_page: &MetaPage) -> (r: Self)
        ensures
            r == (PlainStorage { distance_fn, heap_attr, num_neighbors: meta_page.num_neighbors }),
    {
        PlainStorage { distance_fn, heap_attr, num_neighbors: meta_page.get_num_neighbors() }
    }

    pub fn load_for_search(distance_fn: F, heap_attr: i16, meta_page: &MetaPage) -> (r: Self)
        ensures
            r == (PlainStorage { distance_fn, heap_attr, num_neighbors: meta_page.num_neighbors }),
    {
        PlainStorage { distance_fn, heap_attr, num_neighbors: meta_page.get_num_neighbors() }
    }
}

/// What a search keeps of a node: the row that it stands for, and the nodes that it has edges
/// to.
pub struct PlainStorageLsnPrivateData {
    pub heap_pointer: HeapPointer,
    pub neighbors: Vec<ItemPointer>,
}

impl PlainStorageLsnPrivateData {
    pub fn new<E>(node: &PlainNode<E>) -> (r: Self)
        ensures
            r.heap_pointer == node.heap_item_pointer,
            r.neighbors@ == node.neighbors@,
    {
        PlainStorageLsnPrivateData {
            heap_pointer: node.heap_item_pointer,
            neighbors: node.get_index_pointer_to_neighbors(),
        }
    }
}

/// What became of an attempt to replace the neighbors of a node.
#[derive(Clone, Copy, Debug, PartialEq, Eq, Structural)]
pub enum NeighborUpdate {
    /// The node's neighbors are not those that were expected: nothing was done.
    Stale,
    /// The node has the neighbors already: there is nothing to commit.
    Unchanged,
    /// The neighbors were replaced: the node is to be committed.
    Replaced,
}

/// What becomes of an attempt to replace the neighbors `current` by `wanted` where `expected`
/// were seen before.
pub open spec fn update_of(
    current: Seq<IndexPointer>,
    expected: Seq<IndexPointer>,
    wanted: Seq<IndexPointer>,
) -> NeighborUpdate {
    if current != expected {
        NeighborUpdate::Stale
    } else if current == wanted {
        NeighborUpdate::Unchanged
    } else {
        NeighborUpdate::Replaced
    }
}

/// The neighbors after that attempt.
pub open spec fn updated(
    current: Seq<IndexPointer>,
    expected: Seq<IndexPointer>,
    wanted: Seq<IndexPointer>,
) -> Seq<IndexPointer> {
    if update_of(current, expected, wanted) is Replaced {
        wanted
    } else {
        current
    }
}

impl NeighborUpdate {
    /// Whether the node now has the neighbors that it was to have.
    pub fn succeeded(self) -> (r: bool)
        ensures
            r == (self != NeighborUpdate::Stale),
    {
        match self {
            NeighborUpdate::Stale => false,
            NeighborUpdate::Unchanged => true,
            NeighborUpdate::Replaced => true,
        }
    }
}

/// No writer overwrites what it has not seen. Of two that saw the same neighbors, the second
/// one is refused where the first one changed them.
pub proof fn lemma_second_writer_refused(
    seen: Seq<IndexPointer>,
    first: Seq<IndexPointer>,
    second: Seq<IndexPointer>,
)
    requires
        first != seen,
    ensures
        update_of(seen, seen, first) is Replaced,
        updated(seen, seen, first) == first,
        update_of(updated(seen, seen, first), seen, second) is Stale,
        updated(updated(seen, seen, first), seen, second) == first,
{
}

/// A writer that is refused succeeds with the latest neighbors, if nobody comes in between; and
/// then the node has the neighbors that it wants.
pub proof fn lemma_retry_succeeds(current: Seq<IndexPointer>, wanted: Seq<IndexPointer>)
    ensures
        !(update_of(current, current, wanted) is Stale),
        updated(current, current, wanted) == wanted,
{
}

/// An attempt changes the neighbors only where it reports that it replaced them.
pub proof fn lemma_update_reported(
    current: Seq<IndexPointer>,
    expected: Seq<IndexPointer>,
    wanted: Seq<IndexPointer>,
)
    ensures
        updated(current, expected, wanted) != current <==> update_of(
            current,
            expected,
            wanted,
        ) is Replaced,
        !(update_of(current, expected, wanted) is Stale) <==> current == expected,
{
}

/// Whether two lists name the same nodes in the same order.
fn same_pointers(a: &[IndexPointer], b: &[IndexPointer]) -> (r: bool)
    ensures
        r == (a@ == b@),
{
    if a.len() != b.len() {
        return false;
    }
    let mut i: usize = 0;
    while i < a.len()
        invariant
            i <= a.len(),
            a.len() == b.len(),
            forall|j: int| 0 <= j < i ==> a[j] == b[j],
        decreases a.len() - i,
    {
        if a[i] != b[i] {
            assert(a@[i as int] != b@[i as int]);
            return false;
        }
        i = i + 1;
    }
    assert(a@ =~= b@);
    true
}

/// Whether a node's neighbors are `neighbors`, in that order.
fn has_neighbors(a: &[IndexPointer], neighbors: &[NeighborWithDistance]) -> (r: bool)
    ensures
        r == (a@ == pointers_to(neighbors@)),
{
    if a.len() != neighbors.len() {
        assert(pointers_to(neighbors@).len() != a@.len());
        return false;
    }
    let mut i: usize = 0;
    while i < a.len()
        invariant
            i <= a.len(),
            a.len() == neighbors.len(),
            forall|j: int| 0 <= j < i ==> a[j] == pointers_to(neighbors@)[j],
        decreases a.len() - i,
    {
        if a[i] != neighbors[i].get_index_pointer_to_neighbor() {
            assert(a@[i as int] != pointers_to(neighbors@)[i as int]);
            return false;
        }
        i = i + 1;
    }
    assert(a@ =~= pointers_to(neighbors@));
    true
}

/// Whether the nodes that `read` gives for `p` can be compared with `vector` by `f`, the node's
/// vector second.
pub open spec fn queryable<E, F: Fn(&[E], &[E]) -> Distance, R: Fn(IndexPointer) -> PlainNode<E>>(
    f: F,
    read: R,
    p: IndexPointer,
    vector: Seq<E>,
) -> bool {
    &&& call_requires(read, (p,))
    &&& forall|node: PlainNode<E>| #[trigger]
        call_ensures(read, (p,), node) ==> comparable(vector, node.vector@) && accepts(
            f,
            vector,
            node.vector@,
        )
}

/// Whether `neighbor` is the edge from the node at `from`, whose vector is `vector`, to the node
/// at `to`: it has the distance between the two, and no labels.
pub open spec fn edge_of<E, F: Fn(&[E], &[E]) -> Distance, R: Fn(IndexPointer) -> PlainNode<E>>(
    f: F,
    read: R,
    vector: Seq<E>,
    from: ItemPointer,
    to: ItemPointer,
    neighbor: NeighborWithDistance,
) -> bool {
    &&& neighbor.index_pointer == to
    &&& neighbor.labels is None
    &&& neighbor.distance.from == from
    &&& neighbor.distance.to == to
    &&& exists|node: PlainNode<E>| #[trigger]
        call_ensures(read, (to,), node) && measured(
            f,
            node.vector@,
            vector,
            neighbor.distance.distance,
        )
}

/// Whether the nodes that `read` gives for `p` can be compared with `vector` by `f`, the node's
/// vector first.
pub open spec fn measurable<E, F: Fn(&[E], &[E]) -> Distance, R: Fn(IndexPointer) -> PlainNode<E>>(
    f: F,
    read: R,
    p: IndexPointer,
    vector: Seq<E>,
) -> bool {
    &&& call_requires(read, (p,))
    &&& forall|node: PlainNode<E>| #[trigger]
        call_ensures(read, (p,), node) ==> comparable(node.vector@, vector) && accepts(
            f,
            node.vector@,
            vector,
        )
}

/// Whether `edges` are the edges of `source`, the node at `from`, in their order there.
pub open spec fn edges_of<E, F: Fn(&[E], &[E]) -> Distance, R: Fn(IndexPointer) -> PlainNode<E>>(
    f: F,
    read: R,
    from: ItemPointer,
    source: PlainNode<E>,
    edges: Seq<NeighborWithDistance>,
) -> bool {
    &&& edges.len() == source.neighbors@.len()
    &&& forall|i: int|
        0 <= i < edges.len() ==> edge_of(
            f,
            read,
            source.vector@,
            from,
            source.neighbors@[i],
            #[trigger] edges[i],
        )
}

/// What is counted after the edges of a node were read: the node itself, and each of its
/// neighbors with its distance.
pub open spec fn scanned<E>(stats: NodeStats, source: PlainNode<E>) -> NodeStats {
    let n = source.neighbors@.len() as int;
    stats.after_reads(1 + n).after_comparisons(n)
}

/// How much room every counter has.
pub open spec fn counter_room(stats: NodeStats) -> int {
    let a = if stats.reads > stats.writes {
        stats.reads
    } else {
        stats.writes
    };
    let b = if stats.heap_reads > stats.unchanged {
        stats.heap_reads
    } else {
        stats.unchanged
    };
    let c = if a > b {
        a
    } else {
        b
    };
    usize::MAX - if c > stats.full_distance_comparisons {
        c
    } else {
        stats.full_distance_comparisons
    }
}

/// Whether `request` can be merged after the edges of the node at `p` were read, and both
/// together take no more than `room` of the counters.
pub open spec fn mergeable<
    E,
    R: Fn(IndexPointer) -> PlainNode<E>,
    M: Fn(MergeRequest) -> NodeStats,
>(read: R, merge: M, p: IndexPointer, request: MergeRequest, room: int) -> bool {
    &&& call_requires(merge, (request,))
    &&& forall|source: PlainNode<E>, counts: NodeStats|
        #[trigger] call_ensures(read, (p,), source) && #[trigger] call_ensures(
            merge,
            (request,),
            counts,
        ) ==> counts.within(room - 1 - source.neighbors@.len())
}

/// Whether the edges of the node at `p` can be read, and take no more than `room` of the
/// counters.
pub open spec fn edges_readable<
    E,
    F: Fn(&[E], &[E]) -> Distance,
    R: Fn(IndexPointer) -> PlainNode<E>,
>(f: F, read: R, p: IndexPointer, room: int) -> bool {
    &&& call_requires(read, (p,))
    &&& forall|source: PlainNode<E>| #[trigger]
        call_ensures(read, (p,), source) ==> {
            &&& source.neighbors@.len() < room
            &&& forall|i: int|
                0 <= i < source.neighbors@.len() ==> measurable(
                    f,
                    read,
                    #[trigger] source.neighbors@[i],
                    source.vector@,
                )
        }
}

/// Whether `request` was merged, if there is one, and what that took was added to the counts.
pub open spec fn merged<M: Fn(MergeRequest) -> NodeStats>(
    merge: M,
    request: Option<MergeRequest>,
    before: NodeStats,
    after: NodeStats,
) -> bool {
    match request {
        Some(request) => exists|counts: NodeStats| #[trigger]
            call_ensures(merge, (request,), counts) && after == before.plus(counts),
        None => after == before,
    }
}

/// What a lookup of the node at `p` in the builder's cache does and gives. Where the cache has
/// the node, nothing is read or merged. Where it has not, the edges of the node are read, the
/// cache keeps them, and what that evicts is merged.
pub open spec fn built<
    E,
    F: Fn(&[E], &[E]) -> Distance,
    R: Fn(IndexPointer) -> PlainNode<E>,
    M: Fn(MergeRequest) -> NodeStats,
>(
    f: F,
    read: R,
    merge: M,
    p: IndexPointer,
    before: (BuilderNeighborCache, NodeStats),
    after: (BuilderNeighborCache, NodeStats),
    pointers: Seq<IndexPointer>,
) -> bool {
    let key = key_of(p);
    let held = before.0.map().entries;
    &&& after.0.same_settings(&before.0)
    &&& if has_key(held, key) {
        &&& after.0.map() == before.0.map().after_get(key)
        &&& after.1 == before.1
        &&& pointers == pointers_to(value_of(held, key).neighbors@)
    } else {
        &&& exists|source: PlainNode<E>, edges: Seq<NeighborWithDistance>|
            {
                &&& #[trigger] call_ensures(read, (p,), source)
                &&& #[trigger] edges_of(f, read, p, source, edges)
                &&& after.0.filled(&before.0, key, None, edges)
                &&& merged(
                    merge,
                    before.0.evicted_request(key),
                    scanned(before.1, source),
                    after.1,
                )
                &&& pointers == pointers_to(edges)
            }
    }
}

/// Whether `lsn` is what a search learns of the node at `p`: its distance from the query vector,
/// the row that it stands for and its neighbors. Neighbors come from the builder's cache where
/// the store is one, and else from the node itself. `before` and `after` are the store and the
/// counts of its lookups.
pub open spec fn lsn_of<
    E,
    F: Fn(&[E], &[E]) -> Distance,
    R: Fn(IndexPointer) -> PlainNode<E>,
    M: Fn(MergeRequest) -> NodeStats,
>(
    f: F,
    query: (Seq<E>, Option<ItemPointer>),
    read: R,
    merge: M,
    p: IndexPointer,
    before: (GraphNeighborStore, NodeStats),
    after: (GraphNeighborStore, NodeStats),
    lsn: ListSearchNeighbor<PlainStorageLsnPrivateData>,
) -> bool {
    let pointers = lsn.private_data.neighbors@;
    &&& lsn.index_pointer == p
    &&& lsn.distance == query_distance(query.1, lsn.distance.distance, p)
    &&& exists|node: PlainNode<E>| #[trigger]
        call_ensures(read, (p,), node) && {
            &&& measured(f, query.0, node.vector@, lsn.distance.distance)
            &&& lsn.private_data.heap_pointer == node.heap_item_pointer
            &&& before.0 is Disk ==> pointers == node.neighbors@
        }
    &&& match before.0 {
        GraphNeighborStore::Builder(b) => {
            &&& after.0 matches GraphNeighborStore::Builder(a)
            &&& built(f, read, merge, p, (b, before.1), (a, after.1), pointers)
        },
        GraphNeighborStore::Disk => after.0 is Disk && after.1 == before.1,
    }
}

/// Whether `lsns` are what a search learns of `nodes`, one after the other, where the store and
/// the counts of its lookups go through `states`.
pub open spec fn lsns_of<
    E,
    F: Fn(&[E], &[E]) -> Distance,
    R: Fn(IndexPointer) -> PlainNode<E>,
    M: Fn(MergeRequest) -> NodeStats,
>(
    f: F,
    query: (Seq<E>, Option<ItemPointer>),
    read: R,
    merge: M,
    nodes: Seq<ItemPointer>,
    states: Seq<(GraphNeighborStore, NodeStats)>,
    lsns: Seq<ListSearchNeighbor<PlainStorageLsnPrivateData>>,
) -> bool {
    &&& lsns.len() == nodes.len()
    &&& states.len() == nodes.len() + 1
    &&& forall|i: int| 0 <= i < states.len() ==> (#[trigger] states[i]).0.wf()
    &&& forall|i: int|
        0 <= i < nodes.len() ==> lsn_of(
            f,
            query,
            read,
            merge,
            #[trigger] nodes[i],
            states[i],
            states[i + 1],
            lsns[i],
        )
}

impl<F> PlainStorage<F> {
    /// Nodes stand on pages of nodes.
    pub fn page_type() -> (r: PageType)
        ensures
            r == PageType::Node,
    {
        PageType::Node
    }

    /// Makes a node without edges for a row. `write` writes it, and says where it stands.
    pub fn create_node<E: Copy, W: FnOnce(PlainNode<E>) -> ItemPointer>(
        &self,
        full_vector: &[E],
        heap_pointer: HeapPointer,
        write: W,
        stats: &mut NodeStats,
    ) -> (r: ItemPointer)
        requires
            old(stats).writes < usize::MAX,
            forall|node: PlainNode<E>|
                node.vector@ == full_vector@ && node.neighbors@.len() == 0
                    && node.heap_item_pointer == heap_pointer ==> #[trigger] call_requires(
                    write,
                    (node,),
                ),
        ensures
            *final(stats) == old(stats).after_writes(1),
            exists|node: PlainNode<E>| #[trigger]
                call_ensures(write, (node,), r) && {
                    &&& node.vector@ == full_vector@
                    &&& node.neighbors@ == Seq::<IndexPointer>::empty()
                    &&& node.heap_item_pointer == heap_pointer
                },
    {
        let node = PlainNode::new_for_full_vector(copy_of(full_vector), heap_pointer);
        let index_pointer = write(node);
        stats.record_write();
        index_pointer
    }

    /// The distances from the node at `index_pointer`, which `read` reads.
    pub fn get_node_distance_measure<'b, E: Copy, R: FnOnce(IndexPointer) -> PlainNode<E>>(
        &'b self,
        index_pointer: IndexPointer,
        read: R,
        stats: &mut NodeStats,
    ) -> (r: IndexFullDistanceMeasure<'b, E, F>) where F: Fn(&[E], &[E]) -> Distance
        requires
            call_requires(read, (index_pointer,)),
            old(stats).reads < usize::MAX,
        ensures
            *final(stats) == old(stats).after_reads(1),
            r.storage() == *self,
            exists|node: PlainNode<E>| #[trigger]
                call_ensures(read, (index_pointer,), node) && r.vector() == node.vector@,
    {
        IndexFullDistanceMeasure::with_index_pointer(self, index_pointer, read, stats)
    }

    /// The distances from a query.
    pub fn get_query_distance_measure<E>(&self, query: LabeledVector<E>) -> (r:
        PlainDistanceMeasure<E>)
        ensures
            r == PlainDistanceMeasure::Full(query),
    {
        PlainDistanceMeasure::Full(query)
    }

    /// The distance of a row from the query over all dimensions; `None` where the row cannot be
    /// seen. `read_row` reads the vector of a row that can be seen from the given attribute.
    ///
    /// This is needed only where the index covers fewer dimensions than the vectors have.
    pub fn get_full_distance_for_resort<E, H: FnOnce(HeapPointer, i16) -> Option<Vec<E>>>(
        &self,
        qdm: &PlainDistanceMeasure<E>,
        heap_pointer: HeapPointer,
        meta_page: &MetaPage,
        read_row: H,
        stats: &mut NodeStats,
    ) -> (r: Option<Distance>) where F: Fn(&[E], &[E]) -> Distance
        requires
            old(stats).heap_reads < usize::MAX,
            meta_page.num_dimensions > meta_page.num_dimensions_to_index,
            call_requires(read_row, (heap_pointer, self.heap_attr)),
            forall|row: Option<Vec<E>>| #[trigger]
                call_ensures(read_row, (heap_pointer, self.heap_attr), row) ==> (
                row matches Some(vector) ==> accepts(
                    self.distance_fn,
                    vector@,
                    qdm->Full_0.full@,
                )),
        ensures
            *final(stats) == old(stats).after_heap_read(),
            exists|row: Option<Vec<E>>| #[trigger]
                call_ensures(read_row, (heap_pointer, self.heap_attr), row) && match row {
                    Some(vector) => r matches Some(distance) && measured(
                        self.distance_fn,
                        vector@,
                        qdm->Full_0.full@,
                        distance,
                    ),
                    None => r is None,
                },
    {
        let row = read_row(heap_pointer, self.heap_attr);
        stats.record_heap_read();
        match row {
            Some(vector) => match qdm {
                PlainDistanceMeasure::Full(query) => Some(
                    (self.distance_fn)(vector.as_slice(), query.full.as_slice()),
                ),
            },
            None => None,
        }
    }

    /// The neighbors of the node at `p` as the builder has them.
    fn builder_neighbors<
        E: Copy,
        R: Fn(IndexPointer) -> PlainNode<E>,
        M: Fn(MergeRequest) -> NodeStats,
    >(
        &self,
        builder: &mut BuilderNeighborCache,
        p: ItemPointer,
        read: &R,
        merge: &M,
        stats: &mut NodeStats,
    ) -> (r: Vec<IndexPointer>) where F: Fn(&[E], &[E]) -> Distance
        requires
            old(builder).wf(),
            old(builder).can_count_lookup(key_of(p)),
            !has_key(old(builder).map().entries, key_of(p)) ==> {
                &&& edges_readable(self.distance_fn, *read, p, counter_room(*old(stats)))
                &&& old(builder).evicted_request(key_of(p)) matches Some(request) ==> mergeable(
                    *read,
                    *merge,
                    p,
                    request,
                    counter_room(*old(stats)),
                )
            },
        ensures
            final(builder).wf(),
            built(
                self.distance_fn,
                *read,
                *merge,
                p,
                (*old(builder), *old(stats)),
                (*final(builder), *final(stats)),
                r@,
            ),
    {
        match builder.cached_neighbors(p) {
            Some(neighbors) => index_pointers(neighbors.as_slice()),
            None => {
                let edges = self.get_neighbors_with_distances_from_disk(p, read, stats);
                let request = builder.fill_neighbors(p, self.get_labels(p), edges.as_slice());
                match request {
                    Some(request) => {
                        let counts = merge(request);
                        stats.record_all(&counts);
                    },
                    None => {},
                }
                assert(builder.filled(old(builder), key_of(p), None, edges@));
                index_pointers(edges.as_slice())
            },
        }
    }

    /// What is learned of the node at `p`, which the search came across just now.
    fn lsn_for<E: Copy, R: Fn(IndexPointer) -> PlainNode<E>, M: Fn(MergeRequest) -> NodeStats>(
        &self,
        lsr: &mut ListSearchResult<PlainDistanceMeasure<E>, PlainStorageLsnPrivateData>,
        p: ItemPointer,
        gns: &mut GraphNeighborStore,
        read: &R,
        merge: &M,
    ) -> (lsn: ListSearchNeighbor<PlainStorageLsnPrivateData>) where
        F: Fn(&[E], &[E]) -> Distance,

        requires
            queryable(self.distance_fn, *read, p, old(lsr).sdm->Full_0.indexed@),
            old(lsr).stats.reads < usize::MAX,
            old(lsr).stats.full_distance_comparisons < usize::MAX,
            old(gns).wf(),
            *old(gns) matches GraphNeighborStore::Builder(b) ==> {
                &&& b.can_count_lookup(key_of(p))
                &&& !has_key(b.map().entries, key_of(p)) ==> {
                    &&& edges_readable(
                        self.distance_fn,
                        *read,
                        p,
                        counter_room(old(lsr).prune_stats),
                    )
                    &&& b.evicted_request(key_of(p)) matches Some(request) ==> mergeable(
                        *read,
                        *merge,
                        p,
                        request,
                        counter_room(old(lsr).prune_stats),
                    )
                }
            },
        ensures
            final(gns).wf(),
            lsn_of(
                self.distance_fn,
                (old(lsr).sdm->Full_0.indexed@, old(lsr).tie_break_item_pointer),
                *read,
                *merge,
                p,
                (*old(gns), old(lsr).prune_stats),
                (*final(gns), final(lsr).prune_stats),
                lsn,
            ),
            final(lsr).stats == old(lsr).stats.after_reads(1).after_comparisons(1),
            final(lsr).inserted == old(lsr).inserted,
            final(lsr).visited == old(lsr).visited,
            final(lsr).candidates == old(lsr).candidates,
            final(lsr).sdm == old(lsr).sdm,
            final(lsr).tie_break_item_pointer == old(lsr).tie_break_item_pointer,
    {
        let node = read(p);
        lsr.stats.record_read();
        let distance: Distance = match &lsr.sdm {
            PlainDistanceMeasure::Full(query) => PlainDistanceMeasure::calculate_distance(
                &self.distance_fn,
                query.indexed.as_slice(),
                node.vector.as_slice(),
                &mut lsr.stats,
            ),
        };
        let mut private_data = PlainStorageLsnPrivateData::new(&node);
        // A cache miss may evict and write a node on the page that was just read.
        match gns {
            GraphNeighborStore::Builder(b) => {
                private_data.neighbors = self.builder_neighbors(
                    b,
                    p,
                    read,
                    merge,
                    &mut lsr.prune_stats,
                );
            },
            GraphNeighborStore::Disk => {},
        }
        ListSearchNeighbor::new(p, lsr.create_distance_with_tie_break(distance, p), private_data)
    }

    /// What a search learns of a node that it starts from; `None` where it came across the node
    /// before, which is then not read. `read` reads nodes, and `merge` merges what the builder's
    /// cache evicts.
    pub fn create_lsn_for_start_node<
        E: Copy,
        R: Fn(IndexPointer) -> PlainNode<E>,
        M: Fn(MergeRequest) -> NodeStats,
    >(
        &self,
        lsr: &mut ListSearchResult<PlainDistanceMeasure<E>, PlainStorageLsnPrivateData>,
        index_pointer: ItemPointer,
        gns: &mut GraphNeighborStore,
        read: &R,
        merge: &M,
    ) -> (r: Option<ListSearchNeighbor<PlainStorageLsnPrivateData>>) where
        F: Fn(&[E], &[E]) -> Distance,

        requires
            old(gns).wf(),
            !old(lsr).inserted().contains(key_of(index_pointer)) ==> {
                &&& queryable(
                    self.distance_fn,
                    *read,
                    index_pointer,
                    old(lsr).sdm->Full_0.indexed@,
                )
                &&& old(lsr).stats.reads < usize::MAX
                &&& old(lsr).stats.full_distance_comparisons < usize::MAX
                &&& *old(gns) matches GraphNeighborStore::Builder(b) ==> {
                    &&& b.can_count_lookup(key_of(index_pointer))
                    &&& !has_key(b.map().entries, key_of(index_pointer)) ==> {
                        &&& edges_readable(
                            self.distance_fn,
                            *read,
                            index_pointer,
                            counter_room(old(lsr).prune_stats),
                        )
                        &&& b.evicted_request(key_of(index_pointer)) matches Some(request)
                            ==> mergeable(
                            *read,
                            *merge,
                            index_pointer,
                            request,
                            counter_room(old(lsr).prune_stats),
                        )
                    }
                }
            },
        ensures
            final(gns).wf(),
            if old(lsr).inserted().contains(key_of(index_pointer)) {
                &&& r is None
                &&& *final(gns) == *old(gns)
                &&& final(lsr).stats == old(lsr).stats
                &&& final(lsr).prune_stats == old(lsr).prune_stats
            } else {
                &&& r matches Some(lsn)
                &&& lsn_of(
                    self.distance_fn,
                    (old(lsr).sdm->Full_0.indexed@, old(lsr).tie_break_item_pointer),
                    *read,
                    *merge,
                    index_pointer,
                    (*old(gns), old(lsr).prune_stats),
                    (*final(gns), final(lsr).prune_stats),
                    lsn,
                )
                &&& lsn.index_pointer == index_pointer
                &&& exists|node: PlainNode<E>| #[trigger]
                    call_ensures(*read, (index_pointer,), node) && measured(
                        self.distance_fn,
                        old(lsr).sdm->Full_0.indexed@,
                        node.vector@,
                        lsn.distance.distance,
                    ) && lsn.private_data.heap_pointer == node.heap_item_pointer
                &&& final(lsr).stats == old(lsr).stats.after_reads(1).after_comparisons(1)
            },
            final(lsr).inserted() == old(lsr).inserted().insert(key_of(index_pointer)),
            final(lsr).visited == old(lsr).visited,
            final(lsr).candidates == old(lsr).candidates,
            final(lsr).sdm == old(lsr).sdm,
            final(lsr).tie_break_item_pointer == old(lsr).tie_break_item_pointer,
    {
        if !lsr.prepare_insert(index_pointer) {
            // The node was processed already.
            return None;
        }
        Some(self.lsn_for(lsr, index_pointer, gns, read, merge))
    }

    /// Looks at the neighbors of a visited node: those that the search comes across for the first
    /// time become candidates, in the order of the edges. `read` reads nodes, and `merge` merges
    /// what the builder's cache evicts.
    ///
    /// There are no label filters in this storage.
    pub fn visit_lsn<
        E: Copy,
        R: Fn(IndexPointer) -> PlainNode<E>,
        M: Fn(MergeRequest) -> NodeStats,
    >(
        &self,
        lsr: &mut ListSearchResult<PlainDistanceMeasure<E>, PlainStorageLsnPrivateData>,
        lsn_idx: usize,
        gns: &mut GraphNeighborStore,
        no_filter: bool,
        read: &R,
        merge: &M,
    ) where F: Fn(&[E], &[E]) -> Distance
        requires
            no_filter,
            lsn_idx < old(lsr).visited@.len(),
            old(gns).wf(),
            ({
                let fresh = unseen(
                    old(lsr).inserted(),
                    old(lsr).visited@[lsn_idx as int].private_data.neighbors@,
                );
                &&& forall|i: int|
                    0 <= i < fresh.len() ==> queryable(
                        self.distance_fn,
                        *read,
                        #[trigger] fresh[i],
                        old(lsr).sdm->Full_0.indexed@,
                    )
                &&& old(lsr).stats.reads + fresh.len() <= usize::MAX
                &&& old(lsr).stats.full_distance_comparisons + fresh.len() <= usize::MAX
                &&& *old(gns) matches GraphNeighborStore::Builder(b) ==> can_look_up(
                    self.distance_fn,
                    *read,
                    *merge,
                    fresh,
                    b,
                    old(lsr).prune_stats,
                )
            }),
        ensures
            final(gns).wf(),
            ({
                let neighbors = old(lsr).visited@[lsn_idx as int].private_data.neighbors@;
                let fresh = unseen(old(lsr).inserted(), neighbors);
                let n = fresh.len() as int;
                let known = old(lsr).candidates@.len() as int;
                &&& final(lsr).inserted() == marked(old(lsr).inserted(), neighbors)
                &&& final(lsr).candidates@.len() == known + n
                &&& final(lsr).candidates@.take(known) == old(lsr).candidates@
                &&& exists|states: Seq<(GraphNeighborStore, NodeStats)>|
                    {
                        &&& #[trigger] lsns_of(
                            self.distance_fn,
                            (old(lsr).sdm->Full_0.indexed@, old(lsr).tie_break_item_pointer),
                            *read,
                            *merge,
                            fresh,
                            states,
                            final(lsr).candidates@.skip(known),
                        )
                        &&& states[0] == (*old(gns), old(lsr).prune_stats)
                        &&& states[n] == (*final(gns), final(lsr).prune_stats)
                    }
                &&& forall|i: int|
                    0 <= i < n ==> {
                        let lsn = #[trigger] final(lsr).candidates@[known + i];
                        &&& lsn.index_pointer == fresh[i]
                        &&& exists|node: PlainNode<E>| #[trigger]
                            call_ensures(*read, (fresh[i],), node) && measured(
                                self.distance_fn,
                                old(lsr).sdm->Full_0.indexed@,
                                node.vector@,
                                lsn.distance.distance,
                            ) && lsn.private_data.heap_pointer == node.heap_item_pointer
                    }
                &&& final(lsr).stats == old(lsr).stats.after_reads(n).after_comparisons(n)
            }),
            final(lsr).visited == old(lsr).visited,
            final(lsr).sdm == old(lsr).sdm,
            final(lsr).tie_break_item_pointer == old(lsr).tie_break_item_pointer,
    {
        let ghost before = *lsr;
        let ghost store = *gns;
        let ghost known = lsr.candidates@.len() as int;
        let ghost query = (lsr.sdm->Full_0.indexed@, lsr.tie_break_item_pointer);
        let lsn = lsr.get_lsn_by_idx(lsn_idx);
        let neighbors = copy_of(lsn.get_private_data().neighbors.as_slice());
        let ghost fresh = unseen(before.inserted(), neighbors@);
        let ghost mut states: Seq<(GraphNeighborStore, NodeStats)> = seq![
            (store, before.prune_stats),
        ];
        let ghost mut done: Seq<ItemPointer> = Seq::empty();
        let mut i: usize = 0;
        assert(neighbors@.take(0) =~= Seq::<ItemPointer>::empty());
        assert(lsr.candidates@.take(known) =~= before.candidates@);
        assert(fresh.take(0) =~= done);
        while i < neighbors.len()
            invariant
                i <= neighbors.len(),
                known == before.candidates@.len(),
                query == (before.sdm->Full_0.indexed@, before.tie_break_item_pointer),
                fresh == unseen(before.inserted(), neighbors@),
                forall|j: int|
                    0 <= j < fresh.len() ==> queryable(
                        self.distance_fn,
                        *read,
                        #[trigger] fresh[j],
                        query.0,
                    ),
                before.stats.reads + fresh.len() <= usize::MAX,
                before.stats.full_distance_comparisons + fresh.len() <= usize::MAX,
                store matches GraphNeighborStore::Builder(b) ==> can_look_up(
                    self.distance_fn,
                    *read,
                    *merge,
                    fresh,
                    b,
                    before.prune_stats,
                ),
                lsr.visited == before.visited,
                lsr.sdm == before.sdm,
                lsr.tie_break_item_pointer == before.tie_break_item_pointer,
                lsr.inserted() == marked(before.inserted(), neighbors@.take(i as int)),
                done == unseen(before.inserted(), neighbors@.take(i as int)),
                done.len() <= fresh.len(),
                done == fresh.take(done.len() as int),
                lsr.candidates@.len() == known + done.len(),
                lsr.candidates@.take(known) == before.candidates@,
                lsr.stats == before.stats.after_reads(done.len() as int).after_comparisons(
                    done.len() as int,
                ),
                gns.wf(),
                lsns_of(
                    self.distance_fn,
                    query,
                    *read,
                    *merge,
                    done,
                    states,
                    lsr.candidates@.skip(known),
                ),
                states[0] == (store, before.prune_stats),
                states[done.len() as int] == (*gns, lsr.prune_stats),
                lookups_left(
                    (store, before.prune_stats),
                    (*gns, lsr.prune_stats),
                    done.len() as int,
                    fresh.len() as int,
                ),
            decreases neighbors.len() - i,
        {
            let ghost current = neighbors@.take(i as int);
            let ghost next = neighbors@.take(i + 1);
            let ghost n = done.len() as int;
            let p = neighbors[i];
            proof {
                assert(next.drop_last() =~= current);
                assert(next.last() == p);
                lemma_unseen_prefix(before.inserted(), neighbors@, i + 1);
            }
            i = i + 1;
            if !lsr.prepare_insert(p) {
                continue;
            }
            proof {
                assert(unseen(before.inserted(), next) == done.push(p));
                assert(done.push(p)[n] == p);
                assert(fresh.take(n + 1)[n] == fresh[n]);
                lemma_room_for_lookup(
                    (store, before.prune_stats),
                    (*gns, lsr.prune_stats),
                    n,
                    fresh.len() as int,
                );
            }
            assert(store is Builder ==> edges_readable(
                self.distance_fn,
                *read,
                p,
                counter_room(lsr.prune_stats),
            ));
            proof {
                if store is Builder {
                    assert forall|request: MergeRequest| mergeable(
                        *read,
                        *merge,
                        p,
                        request,
                        counter_room(lsr.prune_stats),
                    ) by {
                        assert(mergeable(
                            *read,
                            *merge,
                            fresh[n],
                            request,
                            counter_room(before.prune_stats) / fresh.len() as int,
                        ));
                    }
                }
            }
            let ghost lsns = lsr.candidates@.skip(known);
            let ghost candidates = lsr.candidates@;
            let ghost state = (*gns, lsr.prune_stats);
            let lsn = self.lsn_for(lsr, p, gns, read, merge);
            lsr.insert_neighbor(lsn);
            proof {
                let after = (*gns, lsr.prune_stats);
                lemma_lookup_counted(
                    self.distance_fn,
                    query,
                    *read,
                    *merge,
                    p,
                    (store, before.prune_stats),
                    state,
                    after,
                    lsn,
                    n,
                    fresh.len() as int,
                );
                assert(lsr.candidates@.take(known) =~= candidates.take(known));
                assert(lsr.candidates@.skip(known) =~= lsns.push(lsn));
                let longer = states.push(after);
                assert forall|j: int| 0 <= j < n + 1 implies lsn_of(
                    self.distance_fn,
                    query,
                    *read,
                    *merge,
                    #[trigger] done.push(p)[j],
                    longer[j],
                    longer[j + 1],
                    lsns.push(lsn)[j],
                ) by {
                    if j < n {
                        assert(done[j] == done.push(p)[j]);
                    }
                }
                states = longer;
                done = done.push(p);
            }
        }
        assert(neighbors@.take(i as int) =~= neighbors@);
        assert(fresh.take(fresh.len() as int) =~= fresh);
        assert forall|j: int| 0 <= j < fresh.len() implies {
            let lsn = #[trigger] lsr.candidates@[known + j];
            &&& lsn.index_pointer == fresh[j]
            &&& exists|node: PlainNode<E>| #[trigger]
                call_ensures(*read, (fresh[j],), node) && measured(
                    self.distance_fn,
                    query.0,
                    node.vector@,
                    lsn.distance.distance,
                ) && lsn.private_data.heap_pointer == node.heap_item_pointer
        } by {
            assert(lsr.candidates@.skip(known)[j] == lsr.candidates@[known + j]);
            assert(done[j] == fresh[j]);
        }
    }

    /// The row that a node stands for.
    pub fn return_lsn(&self, lsn: &ListSearchNeighbor<PlainStorageLsnPrivateData>) -> (r:
        HeapPointer)
        ensures
            r == lsn.private_data.heap_pointer,
    {
        lsn.get_private_data().heap_pointer
    }
}

impl<F> PlainStorage<F> {
    /// The edges of a node as they stand on disk, in their order there. `read` reads nodes: first
    /// the one that is asked for, then each of its neighbors.
    pub fn get_neighbors_with_distances_from_disk<
        E: Copy,
        R: Fn(IndexPointer) -> PlainNode<E>,
    >(&self, neighbors_of: ItemPointer, read: &R, stats: &mut NodeStats) -> (r: Vec<
        NeighborWithDistance,
    >) where F: Fn(&[E], &[E]) -> Distance
        requires
            call_requires(*read, (neighbors_of,)),
            forall|source: PlainNode<E>| #[trigger]
                call_ensures(*read, (neighbors_of,), source) ==> {
                    &&& old(stats).reads + source.neighbors@.len() < usize::MAX
                    &&& old(stats).full_distance_comparisons + source.neighbors@.len()
                        <= usize::MAX
                    &&& forall|i: int|
                        0 <= i < source.neighbors@.len() ==> measurable(
                            self.distance_fn,
                            *read,
                            #[trigger] source.neighbors@[i],
                            source.vector@,
                        )
                },
        ensures
            exists|source: PlainNode<E>| #[trigger]
                call_ensures(*read, (neighbors_of,), source) && {
                    &&& edges_of(self.distance_fn, *read, neighbors_of, source, r@)
                    &&& pointers_to(r@) == source.neighbors@
                    &&& *final(stats) == scanned(*old(stats), source)
                },
    {
        let ghost before = *stats;
        let source = read(neighbors_of);
        stats.record_read();
        // The edges are captured before the vector is copied and the node is released.
        let neighbors = source.get_index_pointer_to_neighbors();
        let dist_state = IndexFullDistanceMeasure::with_readable_node(self, &source);
        let mut r: Vec<NeighborWithDistance> = Vec::new();
        let mut i: usize = 0;
        while i < neighbors.len()
            invariant
                i <= neighbors.len(),
                r.len() == i,
                neighbors@ == source.neighbors@,
                dist_state.storage() == *self,
                dist_state.vector() == source.vector@,
                before.reads + neighbors@.len() < usize::MAX,
                before.full_distance_comparisons + neighbors@.len() <= usize::MAX,
                *stats == before.after_reads(1 + i).after_comparisons(i as int),
                forall|j: int|
                    0 <= j < source.neighbors@.len() ==> measurable(
                        self.distance_fn,
                        *read,
                        #[trigger] source.neighbors@[j],
                        source.vector@,
                    ),
                forall|j: int|
                    0 <= j < i ==> edge_of(
                        self.distance_fn,
                        *read,
                        source.vector@,
                        neighbors_of,
                        source.neighbors@[j],
                        #[trigger] r@[j],
                    ),
            decreases neighbors.len() - i,
        {
            let n = neighbors[i];
            assert(n == source.neighbors@[i as int]);
            let distance = dist_state.get_distance(n, read, stats);
            r.push(
                NeighborWithDistance::new(
                    n,
                    DistanceWithTieBreak::new(distance, neighbors_of, n),
                    None,
                ),
            );
            i = i + 1;
        }
        assert(edges_of(self.distance_fn, *read, neighbors_of, source, r@));
        assert(pointers_to(r@) =~= source.neighbors@);
        r
    }

    /// Replaces the neighbors of a node where they are still those that the caller saw when it
    /// chose the new ones. The node is held exclusively from before this call until it was
    /// committed, which it is where its neighbors were replaced and only there.
    pub fn try_set_neighbors_on_disk<E>(
        &self,
        node: &mut PlainNode<E>,
        expected: &[IndexPointer],
        neighbors: &[NeighborWithDistance],
        stats: &mut NodeStats,
    ) -> (r: NeighborUpdate)
        requires
            neighbors@.len() <= self.num_neighbors,
            update_of(old(node).neighbors@, expected@, pointers_to(neighbors@)) is Unchanged
                ==> old(stats).unchanged < usize::MAX,
        ensures
            r == update_of(old(node).neighbors@, expected@, pointers_to(neighbors@)),
            final(node).neighbors@ == updated(
                old(node).neighbors@,
                expected@,
                pointers_to(neighbors@),
            ),
            final(node).vector == old(node).vector,
            final(node).heap_item_pointer == old(node).heap_item_pointer,
            *final(stats) == (if r is Unchanged {
                old(stats).after_unchanged()
            } else {
                *old(stats)
            }),
    {
        if !same_pointers(node.neighbors.as_slice(), expected) {
            return NeighborUpdate::Stale;
        }
        if has_neighbors(node.neighbors.as_slice(), neighbors) {
            stats.record_unchanged();
            return NeighborUpdate::Unchanged;
        }
        node.neighbors = index_pointers(neighbors);
        NeighborUpdate::Replaced
    }

    pub fn get_distance_function(&self) -> (r: &F)
        ensures
            *r == self.distance_fn,
    {
        &self.distance_fn
    }

    /// Nodes have no labels in this storage.
    pub fn get_labels(&self, _index_pointer: IndexPointer) -> (r: Option<LabelSet>)
        ensures
            r is None,
    {
        None
    }

    pub fn get_has_labels(&self) -> (r: bool)
        ensures
            !r,
    {
        false
    }
}

/// Whether `nodes` can be looked up in the builder's cache one after the other: their edges can
/// be read, what the cache evicts can be merged, and the counters have room for it.
pub open spec fn can_look_up<
    E,
    F: Fn(&[E], &[E]) -> Distance,
    R: Fn(IndexPointer) -> PlainNode<E>,
    M: Fn(MergeRequest) -> NodeStats,
>(
    f: F,
    read: R,
    merge: M,
    nodes: Seq<ItemPointer>,
    builder: BuilderNeighborCache,
    stats: NodeStats,
) -> bool {
    let n = nodes.len() as int;
    &&& forall|i: int|
        0 <= i < n ==> edges_readable(f, read, #[trigger] nodes[i], counter_room(stats) / n)
    &&& forall|i: int, request: MergeRequest|
        0 <= i < n ==> #[trigger] mergeable(
            read,
            merge,
            nodes[i],
            request,
            counter_room(stats) / n,
        )
    &&& builder.map().stats.hits + n <= usize::MAX
    &&& builder.map().stats.misses + n <= usize::MAX
    &&& builder.map().stats.inserts + n <= usize::MAX
}

/// Whether the counters still have room for `n - k` of `n` lookups, where `k` were made from
/// `before` to `now`.
spec fn lookups_left(
    before: (GraphNeighborStore, NodeStats),
    now: (GraphNeighborStore, NodeStats),
    k: int,
    n: int,
) -> bool {
    match before.0 {
        GraphNeighborStore::Builder(b) => {
            &&& now.0 matches GraphNeighborStore::Builder(a)
            &&& a.map().stats.hits <= b.map().stats.hits + k
            &&& a.map().stats.misses <= b.map().stats.misses + k
            &&& a.map().stats.inserts <= b.map().stats.inserts + k
            &&& counter_room(now.1) >= counter_room(before.1) - k * (counter_room(before.1) / n)
        },
        GraphNeighborStore::Disk => now.0 is Disk,
    }
}

proof fn lemma_room_for_lookup(
    before: (GraphNeighborStore, NodeStats),
    now: (GraphNeighborStore, NodeStats),
    k: int,
    n: int,
)
    requires
        lookups_left(before, now, k, n),
        0 <= k < n,
    ensures
        before.0 is Builder ==> counter_room(now.1) >= counter_room(before.1) / n,
{
    let room = counter_room(before.1);
    let share = room / n;
    assert(room - k * share >= share) by (nonlinear_arith)
        requires
            share == room / n,
            0 <= k < n,
            room >= 0,
    ;
}

proof fn lemma_lookup_counted<
    E,
    F: Fn(&[E], &[E]) -> Distance,
    R: Fn(IndexPointer) -> PlainNode<E>,
    M: Fn(MergeRequest) -> NodeStats,
>(
    f: F,
    query: (Seq<E>, Option<ItemPointer>),
    read: R,
    merge: M,
    p: IndexPointer,
    before: (GraphNeighborStore, NodeStats),
    now: (GraphNeighborStore, NodeStats),
    after: (GraphNeighborStore, NodeStats),
    lsn: ListSearchNeighbor<PlainStorageLsnPrivateData>,
    k: int,
    n: int,
)
    requires
        lookups_left(before, now, k, n),
        lsn_of(f, query, read, merge, p, now, after, lsn),
        0 <= k < n,
        before.0 is Builder ==> edges_readable(f, read, p, counter_room(before.1) / n),
        before.0 is Builder ==> forall|request: MergeRequest| #[trigger]
            mergeable(read, merge, p, request, counter_room(before.1) / n),
        before.0 matches GraphNeighborStore::Builder(b) ==> {
            &&& b.map().stats.hits + n <= usize::MAX
            &&& b.map().stats.misses + n <= usize::MAX
            &&& b.map().stats.inserts + n <= usize::MAX
        },
    ensures
        lookups_left(before, after, k + 1, n),
{
    if before.0 is Builder {
        let room = counter_room(before.1);
        let share = room / n;
        lemma_room_for_lookup(before, now, k, n);
        assert((k + 1) * share == k * share + share) by (nonlinear_arith);
        assert(share >= 0) by (nonlinear_arith)
            requires
                share == room / n,
                room >= 0,
                n > 0,
        ;
        let b = now.0->Builder_0;
        let key = key_of(p);
        if !has_key(b.map().entries, key) {
            let a = after.0->Builder_0;
            let (source, edges) = choose|source: PlainNode<E>, edges: Seq<NeighborWithDistance>|
                {
                    &&& #[trigger] call_ensures(read, (p,), source)
                    &&& #[trigger] edges_of(f, read, p, source, edges)
                    &&& a.filled(&b, key, None, edges)
                    &&& merged(merge, b.evicted_request(key), scanned(now.1, source), after.1)
                    &&& lsn.private_data.neighbors@ == pointers_to(edges)
                };
            assert(source.neighbors@.len() < share);
            if let Some(request) = b.evicted_request(key) {
                let counts = choose|counts: NodeStats| #[trigger]
                    call_ensures(merge, (request,), counts) && after.1 == scanned(
                        now.1,
                        source,
                    ).plus(counts);
                assert(mergeable(read, merge, p, request, share));
                assert(counts.within(share - 1 - source.neighbors@.len()));
            }
            assert(counter_room(after.1) >= counter_room(now.1) - share);
        }
    }
}

/// Nodes that come later do not change which of the earlier ones were unseen.
proof fn lemma_unseen_prefix(inserted: Set<u64>, nodes: Seq<ItemPointer>, n: int)
    requires
        0 <= n <= nodes.len(),
    ensures
        unseen(inserted, nodes.take(n)).len() <= unseen(inserted, nodes).len(),
        unseen(inserted, nodes.take(n)) == unseen(inserted, nodes).take(
            unseen(inserted, nodes.take(n)).len() as int,
        ),
    decreases nodes.len(),
{
    if n == nodes.len() {
        assert(nodes.take(n) =~= nodes);
        assert(unseen(inserted, nodes).take(unseen(inserted, nodes).len() as int) =~= unseen(
            inserted,
            nodes,
        ));
    } else {
        let rest = nodes.drop_last();
        assert(rest.take(n) =~= nodes.take(n));
        lemma_unseen_prefix(inserted, rest, n);
        let done = unseen(inserted, nodes.take(n));
        assert(unseen(inserted, nodes).take(done.len() as int) =~= unseen(inserted, rest).take(
            done.len() as int,
        ));
    }
}

} // verus!
