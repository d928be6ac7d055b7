use std::cell::RefCell;
use std::collections::HashMap;

use vectorscale::access_method::graph::list_search::ListSearchResult;
use vectorscale::access_method::graph::neighbor_store::{
    BuilderNeighborCache, GraphNeighborStore, MergeRequest,
};
use vectorscale::access_method::graph::neighbor_with_distance::{
    Distance, DistanceWithTieBreak, NeighborWithDistance,
};
use vectorscale::access_method::labels::LabeledVector;
use vectorscale::access_method::meta_page::MetaPage;
use vectorscale::access_method::plain::node::PlainNode;
use vectorscale::access_method::plain::storage::{
    NeighborUpdate, PlainStorage, PlainStorageLsnPrivateData,
};
use vectorscale::access_method::plain::{IndexFullDistanceMeasure, PlainDistanceMeasure};
use vectorscale::access_method::stats::NodeStats;
use vectorscale::util::item_pointer::{IndexPointer, ItemPointer};
use vectorscale::util::page::PageType;

fn no_merge(_: MergeRequest) -> NodeStats {
    panic!("nothing was evicted")
}

/// A distance that tells its arguments apart.
fn lopsided(a: &[f32], b: &[f32]) -> Distance {
    let sum: f32 = a.iter().zip(b).map(|(x, y)| 10.0 * x + y).sum();
    sum.to_bits()
}

fn meta_page() -> MetaPage {
    MetaPage {
        num_dimensions: 3,
        num_dimensions_to_index: 2,
        num_neighbors: 3,
        max_neighbors_during_build: 4,
        max_alpha: 1.2f64.to_bits(),
        has_labels: false,
    }
}

fn at(i: u32) -> ItemPointer {
    ItemPointer::new(i, 1)
}

fn row(i: u32) -> ItemPointer {
    ItemPointer::new(1000 + i, 1)
}

fn make_node(i: u32, vector: &[f32], neighbors: &[u32]) -> PlainNode<f32> {
    let mut node = PlainNode::new_for_full_vector(vector.to_vec(), row(i));
    node.neighbors = neighbors.iter().map(|n| at(*n)).collect();
    node
}

/// The nodes one to four, and how often they were read.
struct Graph {
    nodes: HashMap<ItemPointer, (Vec<f32>, Vec<u32>)>,
    reads: RefCell<Vec<ItemPointer>>,
}

impl Graph {
    fn new() -> Graph {
        let mut nodes = HashMap::new();
        nodes.insert(at(1), (vec![1.0, 0.0], vec![2, 3, 2, 1]));
        nodes.insert(at(2), (vec![2.0, 0.0], vec![1]));
        nodes.insert(at(3), (vec![3.0, 0.0], vec![4]));
        nodes.insert(at(4), (vec![4.0, 0.0], vec![]));
        Graph { nodes, reads: RefCell::new(Vec::new()) }
    }

    fn read(&self, p: IndexPointer) -> PlainNode<f32> {
        self.reads.borrow_mut().push(p);
        let (vector, neighbors) = &self.nodes[&p];
        make_node(p.block_number, vector, neighbors)
    }
}

fn query() -> LabeledVector<f32> {
    LabeledVector { full: vec![0.5, 0.25, 0.125], indexed: vec![0.5, 0.25], labels: None }
}

fn search() -> ListSearchResult<PlainDistanceMeasure<f32>, PlainStorageLsnPrivateData> {
    ListSearchResult::new(PlainDistanceMeasure::Full(query()), None)
}

#[test]
fn the_loaders_agree() {
    let meta_page = meta_page();
    for make in [
        PlainStorage::new_for_build,
        PlainStorage::load_for_insert,
        PlainStorage::load_for_search,
    ] {
        let storage = make(lopsided, 2, &meta_page);
        assert_eq!(storage.heap_attr, 2);
        assert_eq!(storage.num_neighbors, 3);
        assert_eq!(storage.get_distance_function()(&[1.0], &[2.0]), 12.0f32.to_bits());
        assert!(!storage.get_has_labels());
        assert!(storage.get_labels(at(1)).is_none());
    }
    assert_eq!(PlainStorage::<fn(&[f32], &[f32]) -> Distance>::page_type(), PageType::Node);
}

#[test]
fn a_comparison_is_counted_and_the_query_comes_first() {
    let mut stats = NodeStats::default();
    let d = PlainDistanceMeasure::calculate_distance(
        &lopsided,
        &[1.0f32, 2.0],
        &[3.0, 4.0],
        &mut stats,
    );
    assert_eq!(d, 37.0f32.to_bits());
    assert_eq!(stats.full_distance_comparisons, 1);
}

#[test]
fn a_node_measure_copies_the_vector_and_puts_the_other_node_first() {
    let graph = Graph::new();
    let storage = PlainStorage::new_for_build(lopsided, 2, &meta_page());
    let mut stats = NodeStats::default();
    let measure = storage.get_node_distance_measure(at(1), |p| graph.read(p), &mut stats);
    assert_eq!(stats.reads, 1);
    let read = |p: IndexPointer| graph.read(p);
    assert_eq!(measure.get_distance(at(3), &read, &mut stats), 31.0f32.to_bits());
    assert_eq!(stats.full_distance_comparisons, 1);
    assert_eq!(stats.reads, 2);
    assert_eq!(*graph.reads.borrow(), vec![at(1), at(3)]);
    let node = make_node(9, &[5.0, 0.0], &[]);
    let measure = IndexFullDistanceMeasure::with_readable_node(&storage, &node);
    assert_eq!(measure.get_distance(at(3), &read, &mut stats), 35.0f32.to_bits());
    let measure = IndexFullDistanceMeasure::with_index_pointer(&storage, at(2), read, &mut stats);
    assert_eq!(measure.get_distance(at(3), &read, &mut stats), 32.0f32.to_bits());
}

#[test]
fn a_new_node_has_no_edges() {
    let storage = PlainStorage::new_for_build(lopsided, 2, &meta_page());
    let mut stats = NodeStats::default();
    let write = |node: PlainNode<f32>| {
        assert_eq!(node.vector, vec![1.0, 2.0]);
        assert!(node.neighbors.is_empty());
        assert_eq!(node.heap_item_pointer, row(6));
        at(6)
    };
    assert_eq!(storage.create_node(&[1.0f32, 2.0], row(6), write, &mut stats), at(6));
    assert_eq!(stats.writes, 1);
}

#[test]
fn edges_are_read_with_their_distances() {
    let graph = Graph::new();
    let storage = PlainStorage::new_for_build(lopsided, 2, &meta_page());
    let mut stats = NodeStats::default();
    let read = |p: IndexPointer| graph.read(p);
    let edges = storage.get_neighbors_with_distances_from_disk(at(1), &read, &mut stats);
    let expected = [(2, 21.0f32), (3, 31.0), (2, 21.0), (1, 11.0)];
    assert_eq!(edges.len(), expected.len());
    for (edge, (to, distance)) in edges.iter().zip(expected) {
        assert_eq!(edge.index_pointer, at(to));
        assert_eq!(
            edge.distance,
            DistanceWithTieBreak::new(distance.to_bits(), at(1), at(to))
        );
        assert!(edge.labels.is_none());
    }
    assert_eq!(stats.full_distance_comparisons, 4);
    assert_eq!(stats.reads, 5);
    assert_eq!(*graph.reads.borrow(), vec![at(1), at(2), at(3), at(2), at(1)]);
    assert!(storage
        .get_neighbors_with_distances_from_disk(at(4), &read, &mut stats)
        .is_empty());
}

#[test]
fn a_search_looks_at_each_node_once() {
    let graph = Graph::new();
    let storage = PlainStorage::new_for_build(lopsided, 2, &meta_page());
    let read = |p: IndexPointer| graph.read(p);
    let mut disk = GraphNeighborStore::Disk;
    let mut lsr = search();
    let start = storage
        .create_lsn_for_start_node(&mut lsr, at(1), &mut disk, &read, &no_merge)
        .unwrap();
    assert_eq!(start.index_pointer, at(1));
    assert_eq!(
        start.distance,
        DistanceWithTieBreak::new(8.5f32.to_bits(), ItemPointer::new_invalid(), at(1))
    );
    assert_eq!(start.private_data.neighbors, vec![at(2), at(3), at(2), at(1)]);
    assert_eq!(storage.return_lsn(&start), row(1));
    assert!(storage
        .create_lsn_for_start_node(&mut lsr, at(1), &mut disk, &read, &no_merge)
        .is_none());
    assert_eq!(lsr.stats.full_distance_comparisons, 1);

    lsr.visited.push(start);
    storage.visit_lsn(&mut lsr, 0, &mut disk, true, &read, &no_merge);
    let found: Vec<ItemPointer> = lsr.candidates.iter().map(|c| c.index_pointer).collect();
    assert_eq!(found, vec![at(2), at(3)]);
    assert_eq!(lsr.candidates[1].distance.distance, 10.5f32.to_bits());
    assert_eq!(lsr.candidates[1].private_data.neighbors, vec![at(4)]);
    assert_eq!(lsr.stats.full_distance_comparisons, 3);
    assert_eq!(lsr.stats.reads, 3);
    assert_eq!(lsr.prune_stats, NodeStats::default());
    assert_eq!(*graph.reads.borrow(), vec![at(1), at(2), at(3)]);

    // All of its neighbors were seen.
    storage.visit_lsn(&mut lsr, 0, &mut disk, true, &read, &no_merge);
    assert_eq!(lsr.candidates.len(), 2);
}

#[test]
fn the_builder_decides_which_neighbors_a_node_has() {
    let graph = Graph::new();
    let storage = PlainStorage::new_for_build(lopsided, 2, &meta_page());
    let read = |p: IndexPointer| graph.read(p);
    let merged: RefCell<Vec<MergeRequest>> = RefCell::new(Vec::new());
    let merge = |request: MergeRequest| {
        merged.borrow_mut().push(request);
        NodeStats {
            reads: 100,
            writes: 10,
            heap_reads: 1,
            full_distance_comparisons: 1000,
            unchanged: 2,
        }
    };
    // There is room for one entry.
    let mut cache = BuilderNeighborCache::new(0, &meta_page(), 0);
    cache.set_neighbors(at(2), None, |_| None, wanted(&[3, 4]));
    let mut store = GraphNeighborStore::Builder(cache);
    let mut lsr = ListSearchResult::new(PlainDistanceMeasure::Full(query()), Some(at(50)));
    let start = storage
        .create_lsn_for_start_node(&mut lsr, at(2), &mut store, &read, &merge)
        .unwrap();
    // The neighbors in memory count, not those on disk, and no edge is read.
    assert_eq!(start.private_data.neighbors, vec![at(3), at(4)]);
    assert_eq!(start.private_data.heap_pointer, row(2));
    assert_eq!(start.distance.from, at(50));
    assert_eq!(*graph.reads.borrow(), vec![at(2)]);
    assert_eq!(lsr.prune_stats, NodeStats::default());
    assert!(merged.borrow().is_empty());

    lsr.visited.push(start);
    storage.visit_lsn(&mut lsr, 0, &mut store, true, &read, &merge);
    assert_eq!(lsr.candidates.len(), 2);
    assert_eq!(lsr.candidates[0].index_pointer, at(3));
    assert_eq!(lsr.candidates[0].private_data.neighbors, vec![at(4)]);
    assert!(lsr.candidates[1].private_data.neighbors.is_empty());
    // Each node is read for the search, and again with its edges for the cache.
    assert_eq!(
        *graph.reads.borrow(),
        vec![at(2), at(3), at(3), at(4), at(4), at(4)]
    );
    assert_eq!(lsr.stats.reads, 3);
    // The edges were read, and two entries were merged.
    assert_eq!(
        lsr.prune_stats,
        NodeStats {
            reads: 203,
            writes: 20,
            heap_reads: 2,
            full_distance_comparisons: 2001,
            unchanged: 4,
        }
    );
    // What was evicted to make room was merged, in turn.
    let merged = merged.borrow();
    assert_eq!(merged.len(), 2);
    assert_eq!(merged[0].neighbors_of, at(2));
    assert_eq!(merged[1].neighbors_of, at(3));
    assert_eq!(merged[1].neighbors[0].index_pointer, at(4));
    match &store {
        GraphNeighborStore::Builder(b) => {
            assert_eq!(b.stats().hits, 1);
            assert_eq!(b.stats().misses, 2);
            assert_eq!(b.stats().evictions, 2);
        }
        GraphNeighborStore::Disk => unreachable!(),
    }
}

#[test]
fn a_row_is_compared_over_all_dimensions_if_it_is_seen() {
    let storage = PlainStorage::load_for_search(lopsided, 4, &meta_page());
    let qdm = storage.get_query_distance_measure(query());
    let mut stats = NodeStats::default();
    let seen = |p: ItemPointer, attribute: i16| {
        assert_eq!(p, row(1));
        assert_eq!(attribute, 4);
        Some(vec![1.0, 0.0, 0.0])
    };
    let d = storage.get_full_distance_for_resort(&qdm, row(1), &meta_page(), seen, &mut stats);
    assert_eq!(d, Some(10.875f32.to_bits()));
    let unseen = |_: ItemPointer, _: i16| None;
    let none =
        storage.get_full_distance_for_resort(&qdm, row(1), &meta_page(), unseen, &mut stats);
    assert_eq!(stats, NodeStats { heap_reads: 2, ..NodeStats::default() });
    assert_eq!(none, None);
}

fn wanted(to: &[u32]) -> Vec<NeighborWithDistance> {
    to.iter()
        .map(|t| {
            NeighborWithDistance::new(at(*t), DistanceWithTieBreak::new(0, at(1), at(*t)), None)
        })
        .collect()
}

#[test]
fn neighbors_are_replaced_only_where_they_are_the_expected_ones() {
    let storage = PlainStorage::load_for_insert(lopsided, 2, &meta_page());
    let mut stats = NodeStats::default();
    let mut node = make_node(1, &[1.0, 0.0], &[2, 3]);

    // The order counts, and so does the number.
    for stale in [vec![at(3), at(2)], vec![at(2)], vec![at(2), at(3), at(4)], vec![]] {
        let r = storage.try_set_neighbors_on_disk(&mut node, &stale, &wanted(&[4]), &mut stats);
        assert_eq!(r, NeighborUpdate::Stale);
        assert!(!r.succeeded());
        assert_eq!(node.neighbors, vec![at(2), at(3)]);
    }
    assert_eq!(stats.unchanged, 0);

    let seen = vec![at(2), at(3)];
    let r = storage.try_set_neighbors_on_disk(&mut node, &seen, &wanted(&[2, 3]), &mut stats);
    assert_eq!(r, NeighborUpdate::Unchanged);
    assert!(r.succeeded());
    assert_eq!(stats.unchanged, 1);

    let r = storage.try_set_neighbors_on_disk(&mut node, &seen, &wanted(&[4, 2, 3]), &mut stats);
    assert_eq!(r, NeighborUpdate::Replaced);
    assert!(r.succeeded());
    assert_eq!(node.neighbors, vec![at(4), at(2), at(3)]);
    assert_eq!(node.vector, vec![1.0, 0.0]);
    assert_eq!(node.heap_item_pointer, row(1));
    assert_eq!(stats.unchanged, 1);

    // Another writer that saw the same neighbors is refused, and succeeds with the latest ones.
    let r = storage.try_set_neighbors_on_disk(&mut node, &seen, &wanted(&[5]), &mut stats);
    assert_eq!(r, NeighborUpdate::Stale);
    let latest = node.get_index_pointer_to_neighbors();
    let r = storage.try_set_neighbors_on_disk(&mut node, &latest, &wanted(&[5]), &mut stats);
    assert_eq!(r, NeighborUpdate::Replaced);
    assert_eq!(node.neighbors, vec![at(5)]);
}
