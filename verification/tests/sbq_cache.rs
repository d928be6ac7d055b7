use vectorscale::access_method::sbq::cache::{QuantizedVectorCache, SbqVectorElement};
use vectorscale::access_method::stats::NodeStats;
use vectorscale::util::item_pointer::ItemPointer;
use vectorscale::util::lru::CacheNotice;

#[test]
fn entry_size_accounts_for_quantized_elements() {
    let overhead =
        std::mem::size_of::<ItemPointer>() + std::mem::size_of::<Vec<SbqVectorElement>>();
    assert_eq!(QuantizedVectorCache::entry_size(0), overhead);
    assert_eq!(
        QuantizedVectorCache::entry_size(3),
        overhead + 3 * std::mem::size_of::<SbqVectorElement>()
    );
}

#[test]
fn the_budget_sets_the_capacity_but_not_below_the_minimum() {
    let size = QuantizedVectorCache::entry_size(4);
    for make in [QuantizedVectorCache::new, QuantizedVectorCache::new_for_insert] {
        assert_eq!(make(10 * size, 4, 3).cap(), 10);
        assert_eq!(make(11 * size - 1, 4, 3).cap(), 10);
        assert_eq!(make(2 * size, 4, 3).cap(), 3);
        assert_eq!(make(0, 4, 1).cap(), 1);
        assert_eq!(make(10 * size, 4, 0).cap(), 10);
        assert_eq!(make(10 * size, 4, 0).len(), 0);
    }
}

#[test]
fn an_insertion_cache_does_not_reserve_its_capacity() {
    let cache = QuantizedVectorCache::new_for_insert(0, 1, usize::MAX);
    assert_eq!(cache.cap(), usize::MAX);
    assert_eq!(cache.len(), 0);
}

#[test]
fn a_vector_is_read_once_and_then_kept() {
    let mut stats = NodeStats::default();
    let mut cache = QuantizedVectorCache::new(0, 2, 8);
    let node = ItemPointer::new(7, 3);
    assert_eq!(cache.get(node, || vec![1, 2], &mut stats), &[1, 2]);
    assert_eq!(cache.get(node, || panic!("cache hit"), &mut stats), &[1, 2]);
    assert_eq!(cache.stats().misses, 1);
    assert_eq!(cache.stats().hits, 1);
    assert_eq!(stats.reads, 1);
    assert_eq!(cache.len(), 1);
}

#[test]
fn a_remembered_vector_is_not_read() {
    let mut stats = NodeStats::default();
    let mut cache = QuantizedVectorCache::new_for_insert(0, 2, 8);
    let node = ItemPointer::new(7, 3);
    cache.remember(node, vec![5, 6]);
    assert_eq!(cache.get(node, || panic!("remembered"), &mut stats), &[5, 6]);
    cache.remember(node, vec![7, 8]);
    assert_eq!(cache.get(node, || panic!("remembered"), &mut stats), &[7, 8]);
    // A node that differs in the offset alone is another one.
    assert_eq!(cache.get(ItemPointer::new(7, 4), || vec![9], &mut stats), &[9]);
    assert_eq!(cache.stats().inserts, 2);
    assert_eq!(cache.stats().updates, 1);
}

#[test]
fn a_full_cache_forgets_and_says_so_once() {
    let mut stats = NodeStats::default();
    let mut cache = QuantizedVectorCache::new(0, 1, 2);
    for block in 0..4u32 {
        cache.remember(ItemPointer::new(block, 1), vec![block as u64]);
    }
    assert_eq!(cache.len(), 2);
    assert_eq!(cache.stats().evictions, 2);
    assert_eq!(cache.take_notices(), vec![CacheNotice::Full { vectors: 3 }]);
    assert_eq!(cache.get(ItemPointer::new(3, 1), || panic!("kept"), &mut stats), &[3]);
    assert_eq!(cache.get(ItemPointer::new(0, 1), || vec![100], &mut stats), &[100]);
}
