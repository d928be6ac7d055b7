use vectorscale::access_method::graph::neighbor_store::{
    BuilderNeighborCache, GraphNeighborStore, MergeRequest, NeighborCacheEntry, NeighborMergeMode,
};
use vectorscale::access_method::graph::neighbor_with_distance::{
    DistanceWithTieBreak, NeighborWithDistance,
};
use vectorscale::access_method::labels::LabelSet;
use vectorscale::access_method::meta_page::MetaPage;
use vectorscale::util::item_pointer::ItemPointer;
use vectorscale::util::lru::CacheNotice;

fn meta_page() -> MetaPage {
    MetaPage {
        num_dimensions: 3,
        num_dimensions_to_index: 3,
        num_neighbors: 5,
        max_neighbors_during_build: 7,
        max_alpha: 1.2f64.to_bits(),
        has_labels: false,
    }
}

fn node(i: u32) -> ItemPointer {
    ItemPointer::new(i, 1)
}

fn edge(from: u32, to: u32) -> NeighborWithDistance {
    let distance = DistanceWithTieBreak::new(1.5f32.to_bits(), node(from), node(to));
    NeighborWithDistance::new(node(to), distance, None)
}

fn edges(from: u32, to: &[u32]) -> Vec<NeighborWithDistance> {
    to.iter().map(|t| edge(from, *t)).collect()
}

fn targets(neighbors: &[NeighborWithDistance]) -> Vec<ItemPointer> {
    neighbors.iter().map(|n| n.get_index_pointer_to_neighbor()).collect()
}

fn unread(_: ItemPointer) -> Vec<NeighborWithDistance> {
    panic!("the neighbors are in memory")
}

fn unlabeled(_: ItemPointer) -> Option<LabelSet> {
    None
}

fn labels_of(labels: &Option<LabelSet>) -> Option<Vec<i16>> {
    labels.as_ref().map(|set| set.labels().to_vec())
}

/// A cache with room for so many entries.
fn builder(entries: usize) -> BuilderNeighborCache {
    BuilderNeighborCache::new(entries * NeighborCacheEntry::size(5, false), &meta_page(), 0)
}

fn check_request(request: &MergeRequest, of: u32, to: &[u32], always_prune: bool) {
    assert_eq!(request.neighbors_of, node(of));
    assert_eq!(targets(&request.neighbors), targets(&edges(of, to)));
    assert_eq!(request.max_alpha, 1.2f64.to_bits());
    assert_eq!(request.num_neighbors, 5);
    assert_eq!(request.mode, NeighborMergeMode::Builder { always_prune });
}

#[test]
fn entry_size_is_the_size_in_memory() {
    let entry = std::mem::size_of::<NeighborCacheEntry>();
    let neighbor = std::mem::size_of::<NeighborWithDistance>();
    assert_eq!(NeighborCacheEntry::size(0, false), entry);
    assert_eq!(NeighborCacheEntry::size(3, false), entry + 3 * neighbor);
    assert_eq!(NeighborCacheEntry::size(3, true), entry + 3 * neighbor + 8);
}

#[test]
fn workers_share_the_budget() {
    let size = NeighborCacheEntry::size(5, false);
    let meta_page = meta_page();
    assert_eq!(BuilderNeighborCache::new(12 * size, &meta_page, 0).cap(), 12);
    assert_eq!(BuilderNeighborCache::new(12 * size, &meta_page, 1).cap(), 12);
    assert_eq!(BuilderNeighborCache::new(12 * size + 1, &meta_page, 5).cap(), 2);
    assert_eq!(BuilderNeighborCache::new(12 * size, &meta_page, 100).cap(), 1);
    assert_eq!(BuilderNeighborCache::new(0, &meta_page, 0).cap(), 1);
    let labeled = MetaPage { has_labels: true, ..meta_page };
    assert_eq!(BuilderNeighborCache::new(12 * size, &labeled, 0).cap(), 11);
}

#[test]
fn what_is_set_is_what_is_found() {
    let mut cache = builder(4);
    assert!(cache.set_neighbors(node(1), None, unlabeled, edges(1, &[2, 3])).is_none());
    let (neighbors, request) =
        cache.get_neighbors_with_full_vector_distances(node(1), unread, unlabeled);
    assert!(request.is_none());
    assert_eq!(targets(&neighbors), vec![node(2), node(3)]);
    assert_eq!(neighbors[0].distance, edge(1, 2).distance);
    let (pointers, request) = cache.get_neighbors(node(1), unread, unlabeled);
    assert!(request.is_none());
    assert_eq!(pointers, vec![node(2), node(3)]);
    assert_eq!(cache.stats().hits, 2);
    assert_eq!(cache.stats().misses, 0);
}

#[test]
fn a_miss_is_read_once_and_kept_with_its_labels() {
    let mut cache = builder(4);
    let (pointers, request) = cache.get_neighbors(
        node(1),
        |of| {
            assert_eq!(of, node(1));
            edges(1, &[4])
        },
        |_| Some(LabelSet::new(vec![3, 5])),
    );
    assert_eq!(pointers, vec![node(4)]);
    assert!(request.is_none());
    assert_eq!(cache.stats().misses, 1);
    assert_eq!(cache.stats().inserts, 1);
    let (pointers, _) = cache.get_neighbors(node(1), unread, unlabeled);
    assert_eq!(pointers, vec![node(4)]);
    let requests = cache.flush_neighbor_cache();
    assert_eq!(labels_of(&requests[0].labels), Some(vec![3, 5]));
}

#[test]
fn a_repeated_lookup_reads_nothing() {
    let mut cache = builder(1);
    for i in [1, 2] {
        let (first, _) = cache.get_neighbors(node(i), |_| edges(i, &[i + 1, 7]), unlabeled);
        let (second, request) =
            cache.get_neighbors(node(i), unread, |_| panic!("the labels are in memory"));
        assert_eq!(first, second);
        assert!(request.is_none());
    }
}

#[test]
fn what_was_set_is_found_after_few_others() {
    let mut cache = builder(3);
    cache.set_neighbors(node(1), None, unlabeled, edges(1, &[2, 3]));
    for _ in 0..3 {
        cache.get_neighbors(node(4), |_| edges(4, &[1]), unlabeled);
        cache.set_neighbors(node(5), None, unlabeled, edges(5, &[1]));
    }
    let (pointers, _) = cache.get_neighbors(node(1), unread, unlabeled);
    assert_eq!(pointers, vec![node(2), node(3)]);
}

#[test]
fn a_read_and_its_fill_can_be_done_apart() {
    let mut cache = builder(1);
    assert!(cache.cached_neighbors(node(1)).is_none());
    assert!(cache.fill_neighbors(node(1), None, &edges(1, &[2])).is_none());
    assert_eq!(targets(&cache.cached_neighbors(node(1)).unwrap()), vec![node(2)]);
    let request = cache.fill_neighbors(node(2), None, &edges(2, &[3])).unwrap();
    check_request(&request, 1, &[2], true);
}

#[test]
fn given_labels_are_not_read_from_disk() {
    let mut cache = builder(4);
    cache.set_neighbors(
        node(1),
        Some(LabelSet::new(vec![1])),
        |_| panic!("labels were given"),
        edges(1, &[2]),
    );
    cache.set_neighbors(node(2), None, |_| Some(LabelSet::new(vec![2])), edges(2, &[1]));
    cache.set_neighbors(node(3), None, unlabeled, edges(3, &[1]));
    let requests = cache.flush_neighbor_cache();
    assert_eq!(labels_of(&requests[0].labels), Some(vec![1]));
    assert_eq!(labels_of(&requests[1].labels), Some(vec![2]));
    assert_eq!(labels_of(&requests[2].labels), None);
}

#[test]
fn an_evicted_entry_has_to_be_merged() {
    let mut cache = builder(2);
    assert!(cache.set_neighbors(node(1), None, unlabeled, edges(1, &[2])).is_none());
    assert!(cache.set_neighbors(node(2), None, unlabeled, edges(2, &[1])).is_none());
    let request = cache.set_neighbors(node(3), None, unlabeled, edges(3, &[1])).unwrap();
    check_request(&request, 1, &[2], true);
    assert_eq!(cache.take_notices(), vec![CacheNotice::Full { vectors: 3 }]);
    // A fill evicts as well.
    let (pointers, request) = cache.get_neighbors(node(1), |_| edges(1, &[2, 3]), unlabeled);
    assert_eq!(pointers, vec![node(2), node(3)]);
    check_request(&request.unwrap(), 2, &[1], true);
    // Replacing an entry does not.
    assert!(cache.set_neighbors(node(1), None, unlabeled, edges(1, &[])).is_none());
    assert_eq!(cache.stats().updates, 1);
}

#[test]
fn an_entry_does_not_keep_spare_memory() {
    let mut cache = builder(4);
    let mut neighbors = Vec::with_capacity(1000);
    neighbors.push(edge(1, 2));
    cache.set_neighbors(node(1), None, unlabeled, neighbors);
    let request = cache.flush_next().unwrap();
    check_request(&request, 1, &[2], false);
    assert!(request.neighbors.capacity() < 1000);
}

#[test]
fn a_flush_hands_out_all_entries_the_oldest_first() {
    let mut cache = builder(4);
    for i in 1..4 {
        cache.set_neighbors(node(i), None, unlabeled, edges(i, &[i + 10]));
    }
    cache.get_neighbors(node(1), unread, unlabeled);
    let requests = cache.flush_neighbor_cache();
    assert_eq!(requests.len(), 3);
    check_request(&requests[0], 2, &[12], false);
    check_request(&requests[1], 3, &[13], false);
    check_request(&requests[2], 1, &[11], false);
    assert_eq!(cache.stats().evictions, 3);
    assert!(cache.flush_neighbor_cache().is_empty());
    assert!(cache.flush_next().is_none());
}

#[test]
fn entries_are_sorted_by_node() {
    let mut cache = builder(8);
    let nodes = [
        ItemPointer::new(70000, 1),
        ItemPointer::new(2, 9),
        ItemPointer::new(2, 10),
        ItemPointer::new(0, 3),
    ];
    for (i, p) in nodes.iter().enumerate() {
        cache.set_neighbors(*p, None, unlabeled, edges(0, &[i as u32]));
    }
    let store = GraphNeighborStore::Builder(cache);
    let sorted = store.into_sorted();
    let order: Vec<ItemPointer> = sorted.iter().map(|(p, _)| *p).collect();
    assert_eq!(order, vec![nodes[3], nodes[1], nodes[2], nodes[0]]);
    assert_eq!(targets(&sorted[0].1.neighbors), vec![node(3)]);
}

#[test]
fn only_the_builder_keeps_neighbors() {
    let meta_page = meta_page();
    let mut disk = GraphNeighborStore::Disk;
    assert_eq!(disk.max_neighbors(&meta_page), 5);
    assert!(disk.initialize_neighbors(node(1), None, |_| panic!("not read")).is_none());
    for i in 0..2 {
        let (neighbors, request) = disk.get_neighbors_with_full_vector_distances(
            node(1),
            |_| edges(1, &[i]),
            |_| panic!("not read"),
        );
        assert_eq!(targets(&neighbors), vec![node(i)]);
        assert!(request.is_none());
    }

    let mut store = GraphNeighborStore::Builder(builder(4));
    assert_eq!(store.max_neighbors(&meta_page), 7);
    assert!(store.initialize_neighbors(node(1), None, unlabeled).is_none());
    let (neighbors, request) =
        store.get_neighbors_with_full_vector_distances(node(1), unread, unlabeled);
    assert!(neighbors.is_empty());
    assert!(request.is_none());
}
