use std::cell::Cell;
use std::rc::Rc;

use vectorscale::util::lru::{CacheNotice, CacheStats, LruCacheWithStats, NOTICE_INTERVAL};
use vectorscale::util::slab::Slab;
use vectorscale::util::text::append_decimal;

#[test]
fn eager_and_lazy_values_and_lookup_stats_match() {
    let capacity = 2;
    for mut cache in [
        LruCacheWithStats::new(capacity, "test"),
        LruCacheWithStats::new_lazy(capacity, "test"),
    ] {
        assert_eq!(cache.cap(), capacity);
        assert_eq!(cache.len(), 0);
        assert_eq!(cache.get_or_insert(1, || vec![10]), &[10]);
        assert_eq!(cache.stats().hits, 0);
        assert_eq!(cache.stats().misses, 1);
        assert_eq!(cache.get_or_insert(1, || panic!("cache hit")), &[10]);
        assert_eq!(cache.get_or_insert(2, || vec![20]), &[20]);
        assert_eq!(cache.get_or_insert(2, || panic!("full cache hit")), &[20]);
        assert_eq!(cache.len(), 2);
        assert_eq!(cache.stats().hits, 2);
        assert_eq!(cache.stats().misses, 2);
        assert_eq!(cache.stats().inserts, 2);
        assert_eq!(cache.stats().updates, 0);
        assert_eq!(cache.stats().evictions, 0);
        assert!(cache.push(1, vec![11]).is_none());
        assert_eq!(cache.get_or_insert(1, || panic!("updated entry")), &[11]);
        assert_eq!(cache.stats().hits, 3);
        assert_eq!(cache.stats().misses, 2);
        assert_eq!(cache.stats().inserts, 2);
        assert_eq!(cache.stats().updates, 1);
        assert_eq!(cache.stats().evictions, 0);
    }
}

#[test]
fn lazy_capacity_does_not_require_upfront_reservation() {
    let capacity = usize::MAX / 2;
    let mut cache = LruCacheWithStats::new_lazy(capacity, "test");
    assert_eq!(cache.cap(), capacity);
    assert_eq!(cache.len(), 0);
    assert_eq!(cache.get_or_insert(1, || 10), &10);
    assert_eq!(cache.len(), 1);
}

struct Counted(Rc<Cell<usize>>);

impl Drop for Counted {
    fn drop(&mut self) {
        self.0.set(self.0.get() + 1);
    }
}

#[test]
fn drop_releases_owned_values() {
    let capacity = 2;
    for mut cache in [
        LruCacheWithStats::new(capacity, "test"),
        LruCacheWithStats::new_lazy(capacity, "test"),
    ] {
        let drops = Rc::new(Cell::new(0));
        cache.get_or_insert(1, || Counted(Rc::clone(&drops)));
        cache.get_or_insert(2, || Counted(Rc::clone(&drops)));
        assert_eq!(drops.get(), 0);
        drop(cache);
        assert_eq!(drops.get(), 2);
    }
}

#[test]
fn bounded_eviction_preserves_stats_and_recency() {
    let capacity = 2;
    for mut cache in [
        LruCacheWithStats::new(capacity, "test"),
        LruCacheWithStats::new_lazy(capacity, "test"),
    ] {
        cache.get_or_insert(1, || vec![10]);
        cache.get_or_insert(2, || vec![20]);
        cache.get_or_insert(1, || panic!("cache hit"));
        assert_eq!(cache.get_or_insert(3, || vec![30]), &[30]);
        assert_eq!(cache.len(), 2);
        assert_eq!(cache.cap(), capacity);
        assert_eq!(cache.stats().hits, 1);
        assert_eq!(cache.stats().misses, 3);
        assert_eq!(cache.stats().inserts, 3);
        assert_eq!(cache.stats().updates, 0);
        assert_eq!(cache.stats().evictions, 1);
        // The first entry was used after the second one, so it was the second that left.
        assert_eq!(cache.push(4, vec![40]), Some((1, vec![10])));
        assert_eq!(cache.len(), 2);
        assert_eq!(cache.stats().inserts, 4);
        assert_eq!(cache.stats().evictions, 2);
        assert_eq!(cache.stats().hits, 1);
        assert_eq!(cache.stats().misses, 3);
        let (parts, stats) = cache.into_parts();
        assert_eq!(parts.entries, vec![(3, vec![30]), (4, vec![40])]);
        assert_eq!(parts.capacity, capacity);
        assert_eq!(
            stats,
            CacheStats { inserts: 4, updates: 0, hits: 1, misses: 3, evictions: 2 }
        );
    }
}

#[test]
fn eviction_and_replacement_drop_each_owned_value_once() {
    let capacity = 2;
    for mut cache in [
        LruCacheWithStats::new(capacity, "test"),
        LruCacheWithStats::new_lazy(capacity, "test"),
    ] {
        let drops: [_; 5] = std::array::from_fn(|_| Rc::new(Cell::new(0)));
        cache.get_or_insert(1, || Counted(Rc::clone(&drops[0])));
        cache.get_or_insert(2, || Counted(Rc::clone(&drops[1])));
        cache.get_or_insert(3, || Counted(Rc::clone(&drops[2])));
        assert_eq!(drops.each_ref().map(|count| count.get()), [1, 0, 0, 0, 0]);

        assert!(cache.push(3, Counted(Rc::clone(&drops[3]))).is_none());
        assert_eq!(drops.each_ref().map(|count| count.get()), [1, 0, 1, 0, 0]);
        let evicted = cache.push(4, Counted(Rc::clone(&drops[4]))).unwrap();
        assert_eq!(evicted.0, 2);
        // The evicted value belongs to the caller.
        assert_eq!(drops.each_ref().map(|count| count.get()), [1, 0, 1, 0, 0]);
        drop(evicted);
        assert_eq!(drops.each_ref().map(|count| count.get()), [1, 1, 1, 0, 0]);
        assert_eq!(cache.stats().inserts, 4);
        assert_eq!(cache.stats().updates, 1);
        assert_eq!(cache.stats().evictions, 2);
        drop(cache);
        assert_eq!(drops.each_ref().map(|count| count.get()), [1, 1, 1, 1, 1]);
    }
}

#[test]
fn lookups_count_one_hit_or_miss_and_keep_the_entries() {
    let mut cache = LruCacheWithStats::new(3, "test");
    cache.push(1, "one");
    cache.push(2, "two");
    assert_eq!(cache.get(&1), Some(&"one"));
    assert_eq!(cache.get(&9), None);
    assert_eq!(cache.stats().hits, 1);
    assert_eq!(cache.stats().misses, 1);
    assert_eq!(cache.stats().inserts, 2);
    let (parts, _) = cache.into_parts();
    assert_eq!(parts.entries, vec![(2, "two"), (1, "one")]);
    assert_eq!(parts.capacity, 3);
}

#[test]
fn a_pushed_value_is_found_and_replaces_the_old_one() {
    let mut cache = LruCacheWithStats::new(2, "test");
    assert_eq!(cache.push(1, 10), None);
    assert_eq!(cache.push(2, 20), None);
    assert_eq!(cache.push(1, 11), None);
    assert_eq!(cache.get(&1), Some(&11));
    // The entry that was replaced is the most recently used one now.
    assert_eq!(cache.push(3, 30), Some((2, 20)));
    assert_eq!(cache.get(&1), Some(&11));
    assert_eq!(cache.get(&2), None);
}

#[test]
fn an_entry_that_was_just_used_survives_the_next_push() {
    let mut cache = LruCacheWithStats::new(2, "test");
    cache.push(1, 10);
    cache.push(2, 20);
    assert_eq!(cache.get(&1), Some(&10));
    assert_eq!(cache.push(3, 30), Some((2, 20)));
    assert_eq!(cache.get(&1), Some(&10));
}

#[test]
fn a_cache_of_one_entry_hands_out_each_entry_in_turn() {
    let mut cache = LruCacheWithStats::new(1, "test");
    assert_eq!(cache.push(1, 10), None);
    assert_eq!(cache.push(2, 20), Some((1, 10)));
    assert_eq!(cache.push(3, 30), Some((2, 20)));
    assert_eq!(cache.len(), 1);
}

#[test]
fn pop_takes_the_least_recently_used_entry() {
    let mut cache = LruCacheWithStats::new(3, "test");
    cache.push(1, 10);
    cache.push(2, 20);
    cache.get(&1);
    assert_eq!(cache.pop_lru(), Some((2, 20)));
    assert_eq!(cache.pop_lru(), Some((1, 10)));
    assert_eq!(cache.pop_lru(), None);
    assert_eq!(cache.stats().evictions, 2);
    assert_eq!(cache.len(), 0);
}

#[test]
fn every_insertion_is_held_or_evicted() {
    let mut cache = LruCacheWithStats::new(3, "test");
    let mut out: Vec<(u64, u64)> = Vec::new();
    for i in 0..50u64 {
        if let Some(entry) = cache.push(i % 7, i) {
            out.push(entry);
        }
        assert_eq!(cache.stats().inserts, cache.stats().evictions + cache.len());
        assert!(cache.len() <= cache.cap());
    }
    assert_eq!(out.len(), cache.stats().evictions);
}

#[test]
fn the_first_eviction_leaves_a_notice_and_so_does_every_round_number() {
    let mut cache = LruCacheWithStats::new(2, "test");
    assert_eq!(cache.name(), "test");
    cache.push(0, 0);
    cache.push(1, 1);
    assert!(cache.take_notices().is_empty());
    cache.push(2, 2);
    assert_eq!(cache.take_notices(), vec![CacheNotice::Full { vectors: 3 }]);
    assert!(cache.take_notices().is_empty());
    for i in 3..(NOTICE_INTERVAL as u64 + 2) {
        cache.get_or_insert(i, || i);
    }
    let n = NOTICE_INTERVAL;
    assert_eq!(
        cache.take_notices(),
        vec![CacheNotice::Progress {
            capacity: 2,
            stats: CacheStats {
                inserts: n + 2,
                updates: 0,
                hits: 0,
                misses: n - 1,
                evictions: n,
            },
        }]
    );
}

#[test]
fn taking_entries_out_leaves_no_notice_but_counts() {
    let mut cache = LruCacheWithStats::new(1, "test");
    cache.push(1, 1);
    cache.pop_lru();
    // An entry left the cache before, so the first eviction by a push is not announced.
    cache.push(2, 2);
    cache.push(3, 3);
    assert!(cache.take_notices().is_empty());
    assert_eq!(cache.stats().evictions, 2);
}

#[test]
fn a_lookup_says_whether_it_made_the_value() {
    let mut cache = LruCacheWithStats::new(2, "test");
    assert_eq!(cache.find_or_insert(1, || 10), (&10, true));
    assert_eq!(cache.find_or_insert(1, || panic!("cache hit")), (&10, false));
}

#[test]
fn an_entry_stays_while_few_others_are_used() {
    let mut cache = LruCacheWithStats::new(4, "test");
    for key in 10..14 {
        cache.push(key, 0);
    }
    cache.push(1, 100);
    for _ in 0..5 {
        for key in 2..5 {
            cache.get_or_insert(key, || key);
        }
    }
    assert_eq!(cache.get_or_insert(1, || panic!("still held")), &100);
    for key in 2..6 {
        cache.push(key, key);
    }
    assert_eq!(cache.get(&1), None);
}

#[test]
fn a_lookup_that_evicts_announces_the_first_eviction() {
    let mut cache = LruCacheWithStats::new(1, "test");
    cache.get_or_insert(1, || 1);
    cache.get_or_insert(2, || 2);
    assert_eq!(cache.take_notices(), vec![CacheNotice::Full { vectors: 2 }]);
    cache.get_or_insert(3, || 3);
    cache.push(4, 4);
    assert!(cache.take_notices().is_empty());
}

#[test]
fn an_insertion_is_counted_and_the_first_eviction_warned_of() {
    let mut stats = CacheStats { inserts: 2, updates: 0, hits: 1, misses: 3, evictions: 0 };
    let notice = stats.record_insert(true, 2).unwrap();
    assert_eq!(
        stats,
        CacheStats { inserts: 3, updates: 0, hits: 1, misses: 3, evictions: 1 }
    );
    assert!(notice.is_warning());
    assert_eq!(
        notice.message("test"),
        "test cache is full after processing 3 vectors; consider increasing maintenance_work_mem"
    );
}

#[test]
fn messages_hold_the_counts_as_they_are_debugged() {
    let stats =
        CacheStats { inserts: 10002, updates: 0, hits: 98765, misses: 43210, evictions: 10000 };
    let notice = CacheNotice::Progress { capacity: 20, stats };
    assert!(!notice.is_warning());
    assert_eq!(notice.message("test"), format!("test cache capacity 20, stats: {stats:?}"));
    assert_eq!(
        stats.teardown_message("test", usize::MAX),
        format!("test cache teardown: capacity {}, stats: {stats:?}", usize::MAX)
    );
}

#[test]
fn numbers_are_written_in_decimal() {
    for n in [0, 1, 9, 10, 101, 1234567890, usize::MAX] {
        let mut text = String::from("n = ");
        append_decimal(&mut text, n);
        assert_eq!(text, format!("n = {n}"));
    }
}

#[test]
fn slots_are_used_again() {
    let mut slab = Slab::new();
    let a = slab.next_slot();
    slab.put("a");
    let b = slab.next_slot();
    slab.put("b");
    assert_ne!(a, b);
    assert_eq!(slab.take(a), "a");
    assert_eq!(slab.next_slot(), a);
    slab.put("c");
    assert_eq!(slab.get(a), &"c");
    assert_eq!(slab.get(b), &"b");
}
