//! What a cache promises, entry by entry, count by count and notice by notice.

use vstd::prelude::*;

use super::lru::{CacheNotice, CacheStats, CacheView, NOTICE_INTERVAL};
use super::recency::{
    distinct_keys, has_key, lemma_position, position, pushed, touched, value_of,
};
use super::text::decimal;

verus! {

/// The entries with other keys than `key`, in their order.
pub open spec fn others<V>(entries: Seq<(u64, V)>, key: u64) -> Seq<(u64, V)> {
    entries.filter(|e: (u64, V)| e.0 != key)
}

/// Whether no entry has the key `key`.
pub open spec fn absent<V>(entries: Seq<(u64, V)>, key: u64) -> bool {
    forall|i: int| 0 <= i < entries.len() ==> (#[trigger] entries[i]).0 != key
}

/// Without an entry for `key`, the others are all.
proof fn lemma_others_absent<V>(entries: Seq<(u64, V)>, key: u64)
    requires
        absent(entries, key),
    ensures
        others(entries, key) == entries,
    decreases entries.len(),
{
    reveal(Seq::filter);
    if entries.len() > 0 {
        let rest = entries.drop_last();
        assert forall|i: int| 0 <= i < rest.len() implies (#[trigger] rest[i]).0 != key by {
            assert(rest[i] == entries[i]);
        }
        lemma_others_absent(rest, key);
        assert(entries =~= rest.push(entries.last()));
    }
}

/// An entry for `key` at the end is not one of the others.
proof fn lemma_others_push<V>(entries: Seq<(u64, V)>, key: u64, value: V)
    ensures
        others(entries.push((key, value)), key) == others(entries, key),
{
    reveal(Seq::filter);
    assert(entries.push((key, value)).drop_last() =~= entries);
}

/// Without its one entry for `key`, the entries are the others.
proof fn lemma_others_at<V>(entries: Seq<(u64, V)>, p: int)
    requires
        distinct_keys(entries),
        0 <= p < entries.len(),
    ensures
        others(entries, entries[p].0) == entries.remove(p),
        absent(entries.remove(p), entries[p].0),
{
    let key = entries[p].0;
    let pred = |e: (u64, V)| e.0 != key;
    let a = entries.take(p);
    let b = entries.skip(p + 1);
    let one = Seq::<(u64, V)>::empty().push(entries[p]);
    assert(entries =~= (a + one) + b);
    Seq::filter_distributes_over_add(a + one, b, pred);
    Seq::filter_distributes_over_add(a, one, pred);
    assert forall|i: int| 0 <= i < a.len() implies (#[trigger] a[i]).0 != key by {
        assert(a[i] == entries[i]);
    }
    assert forall|i: int| 0 <= i < b.len() implies (#[trigger] b[i]).0 != key by {
        assert(b[i] == entries[p + 1 + i]);
    }
    lemma_others_absent(a, key);
    lemma_others_absent(b, key);
    lemma_others_push(Seq::<(u64, V)>::empty(), key, entries[p].1);
    assert(others(Seq::<(u64, V)>::empty(), key) =~= Seq::<(u64, V)>::empty()) by {
        reveal(Seq::filter);
    }
    let r = entries.remove(p);
    assert(r =~= a + b);
    assert(others(entries, key) =~= r);
    assert forall|i: int| 0 <= i < r.len() implies (#[trigger] r[i]).0 != key by {
        assert(r[i] == entries[if i < p {
            i
        } else {
            i + 1
        }]);
    }
}

/// A key is found where it stands, with the value that stands there, and not found where it does
/// not stand.
pub proof fn lemma_found<V>(entries: Seq<(u64, V)>, key: u64)
    requires
        distinct_keys(entries),
    ensures
        has_key(entries, key) == !absent(entries, key),
        forall|i: int|
            0 <= i < entries.len() && (#[trigger] entries[i]).0 == key ==> value_of(entries, key)
                == entries[i].1,
{
    assert forall|i: int| 0 <= i < entries.len() && (#[trigger] entries[i]).0 == key implies
        value_of(entries, key) == entries[i].1 by {
        lemma_position(entries, i);
    }
}

/// How the entries stand after a pair took the place of one with the same key.
proof fn lemma_order_held<V>(entries: Seq<(u64, V)>, p: int, value: V)
    requires
        distinct_keys(entries),
        0 <= p < entries.len(),
    ensures
        others(entries.remove(p).push((entries[p].0, value)), entries[p].0) == others(
            entries,
            entries[p].0,
        ),
{
    let rest = entries.remove(p);
    lemma_others_at(entries, p);
    lemma_others_absent(rest, entries[p].0);
    lemma_others_push(rest, entries[p].0, value);
}

/// How the entries stand after a pair with a new key was put in.
proof fn lemma_order_new<V>(entries: Seq<(u64, V)>, key: u64, value: V)
    requires
        absent(entries, key),
    ensures
        others(entries, key) == entries,
        others(entries.push((key, value)), key) == entries,
        entries.len() > 0 ==> others(entries.drop_first().push((key, value)), key)
            == entries.drop_first(),
{
    lemma_others_absent(entries, key);
    lemma_others_push(entries, key, value);
    if entries.len() > 0 {
        let rest = entries.drop_first();
        assert forall|i: int| 0 <= i < rest.len() implies (#[trigger] rest[i]).0 != key by {
            assert(rest[i] == entries[i + 1]);
        }
        lemma_others_absent(rest, key);
        lemma_others_push(rest, key, value);
    }
}

/// How the entries stand after a pair was put in, or a key was used.
proof fn lemma_order<V>(entries: Seq<(u64, V)>, cap: nat, key: u64, value: V)
    requires
        distinct_keys(entries),
        entries.len() <= cap,
        0 < cap,
    ensures
        pushed(entries, cap, key, value).len() > 0,
        pushed(entries, cap, key, value).last() == (key, value),
        others(pushed(entries, cap, key, value), key) == (if absent(entries, key) && entries.len()
            == cap {
            entries.drop_first()
        } else {
            others(entries, key)
        }),
        others(touched(entries, key), key) == others(entries, key),
        touched(entries, key).len() == entries.len(),
        absent(entries, key) ==> touched(entries, key) == entries && others(entries, key)
            == entries,
{
    if has_key(entries, key) {
        let p = position(entries, key);
        assert(entries[p].0 == key);
        lemma_order_held(entries, p, value);
        lemma_order_held(entries, p, value_of(entries, key));
    } else {
        assert(absent(entries, key));
        lemma_order_new(entries, key, value);
    }
}

/// A push makes the pair the most recently used entry and keeps the order of all others. An entry
/// with the same key is replaced, and nothing is handed out. Where the key is new and the cache
/// is full, the least recently used entry leaves and is handed out; no other ever does.
pub proof fn lemma_push_order<V>(cache: CacheView<V>, key: u64, value: V)
    requires
        cache.consistent(),
    ensures
        ({
            let after = cache.after_push(key, value);
            let evicts = absent(cache.entries, key) && cache.entries.len() == cache.cap;
            &&& after.entries.len() > 0
            &&& after.entries.last() == (key, value)
            &&& others(after.entries, key) == (if evicts {
                cache.entries.drop_first()
            } else {
                others(cache.entries, key)
            })
            &&& cache.push_result(key) == (if evicts {
                Some(cache.entries[0])
            } else {
                None
            })
            &&& after.cap == cache.cap
            &&& after.name == cache.name
        }),
{
    lemma_order(cache.entries, cache.cap, key, value);
    lemma_found(cache.entries, key);
}

/// A lookup keeps the order of all other entries. It makes the entry that it finds the most
/// recently used one, with its value, and leaves everything in place where it finds none.
pub proof fn lemma_get_order<V>(cache: CacheView<V>, key: u64)
    requires
        cache.consistent(),
    ensures
        ({
            let after = cache.after_get(key);
            &&& others(after.entries, key) == others(cache.entries, key)
            &&& after.entries.len() == cache.entries.len()
            &&& absent(cache.entries, key) ==> after.entries == cache.entries
            &&& forall|i: int|
                0 <= i < cache.entries.len() && (#[trigger] cache.entries[i]).0 == key
                    ==> after.entries.last() == cache.entries[i]
            &&& after.cap == cache.cap
            &&& after.name == cache.name
            &&& after.notices == cache.notices
        }),
{
    lemma_found(cache.entries, key);
    if cache.entries.len() > 0 {
        lemma_order(cache.entries, cache.cap, key, cache.entries[0].1);
    }
    assert forall|i: int| 0 <= i < cache.entries.len() && (#[trigger] cache.entries[i]).0
        == key implies cache.after_get(key).entries.last() == cache.entries[i] by {
        lemma_position(cache.entries, i);
    }
}

/// A lookup that fills the cache where it has to keeps the order of all other entries too. The
/// entry that was looked up is the most recently used one then, with the value that it had, or
/// else with the one that was made for it. Where one was made and the cache is full, the least
/// recently used entry leaves; no other ever does.
pub proof fn lemma_get_or_insert_order<V>(cache: CacheView<V>, key: u64, value: V)
    requires
        cache.consistent(),
    ensures
        ({
            let after = cache.after_get_or_insert(key, value);
            let evicts = absent(cache.entries, key) && cache.entries.len() == cache.cap;
            &&& after.entries.len() > 0
            &&& after.entries.last().0 == key
            &&& absent(cache.entries, key) ==> after.entries.last().1 == value
            &&& forall|i: int|
                0 <= i < cache.entries.len() && (#[trigger] cache.entries[i]).0 == key
                    ==> after.entries.last().1 == cache.entries[i].1
            &&& others(after.entries, key) == (if evicts {
                cache.entries.drop_first()
            } else {
                others(cache.entries, key)
            })
            &&& after.cap == cache.cap
            &&& after.name == cache.name
        }),
{
    lemma_order(cache.entries, cache.cap, key, value);
    lemma_found(cache.entries, key);
    lemma_get_order(cache, key);
    if has_key(cache.entries, key) {
        let p = position(cache.entries, key);
        assert(cache.entries[p].0 == key);
    }
}

/// Taking an entry out takes the least recently used one and keeps the others in their order.
pub proof fn lemma_pop_order<V>(cache: CacheView<V>)
    requires
        cache.consistent(),
        cache.entries.len() > 0,
    ensures
        cache.entries == seq![cache.entries[0]] + cache.after_pop().entries,
        cache.after_pop().cap == cache.cap,
        cache.after_pop().name == cache.name,
        cache.after_pop().notices == cache.notices,
{
    assert(cache.entries =~= seq![cache.entries[0]] + cache.after_pop().entries);
}

/// A push counts one insertion or one update, and an eviction where an entry leaves.
pub proof fn lemma_push_counts<V>(cache: CacheView<V>, key: u64, value: V)
    requires
        cache.consistent(),
        cache.stats.inserts < usize::MAX,
        cache.stats.updates < usize::MAX,
    ensures
        ({
            let after = cache.after_push(key, value).stats;
            let fresh = absent(cache.entries, key);
            &&& after.hits == cache.stats.hits
            &&& after.misses == cache.stats.misses
            &&& after.inserts == cache.stats.inserts + if fresh {
                1int
            } else {
                0
            }
            &&& after.updates == cache.stats.updates + if fresh {
                0int
            } else {
                1
            }
            &&& after.evictions == cache.stats.evictions + if fresh && cache.entries.len()
                == cache.cap {
                1int
            } else {
                0
            }
        }),
{
    lemma_found(cache.entries, key);
}

/// A lookup counts one hit where the key is held and one miss where it is not, and nothing else.
pub proof fn lemma_get_counts<V>(cache: CacheView<V>, key: u64)
    requires
        cache.consistent(),
        cache.stats.hits < usize::MAX,
        cache.stats.misses < usize::MAX,
    ensures
        ({
            let after = cache.after_get(key).stats;
            let missed = absent(cache.entries, key);
            &&& after.hits == cache.stats.hits + if missed {
                0int
            } else {
                1
            }
            &&& after.misses == cache.stats.misses + if missed {
                1int
            } else {
                0
            }
            &&& after.inserts == cache.stats.inserts
            &&& after.updates == cache.stats.updates
            &&& after.evictions == cache.stats.evictions
        }),
{
    lemma_found(cache.entries, key);
}

/// A lookup that fills the cache counts one hit, or one miss and one insertion, and an eviction
/// where an entry leaves.
pub proof fn lemma_get_or_insert_counts<V>(cache: CacheView<V>, key: u64, value: V)
    requires
        cache.consistent(),
        cache.stats.hits < usize::MAX,
        cache.stats.misses < usize::MAX,
        cache.stats.inserts < usize::MAX,
    ensures
        ({
            let after = cache.after_get_or_insert(key, value).stats;
            let missed = absent(cache.entries, key);
            let one = if missed {
                1int
            } else {
                0
            };
            &&& after.hits == cache.stats.hits + 1 - one
            &&& after.misses == cache.stats.misses + one
            &&& after.inserts == cache.stats.inserts + one
            &&& after.updates == cache.stats.updates
            &&& after.evictions == cache.stats.evictions + if missed && cache.entries.len()
                == cache.cap {
                1int
            } else {
                0
            }
        }),
{
    lemma_found(cache.entries, key);
}

/// Taking an entry out counts one eviction, and nothing else.
pub proof fn lemma_pop_counts<V>(cache: CacheView<V>)
    requires
        cache.consistent(),
        cache.entries.len() > 0,
    ensures
        ({
            let after = cache.after_pop().stats;
            &&& after.evictions == cache.stats.evictions + 1
            &&& after.inserts == cache.stats.inserts
            &&& after.updates == cache.stats.updates
            &&& after.hits == cache.stats.hits
            &&& after.misses == cache.stats.misses
        }),
{
}

/// What a cache that held `before` and holds `after` tells of an insertion that evicted an entry:
/// that it is full, with the first eviction, and how many vectors were inserted by then; how it
/// fares, with every round number of evictions; else nothing.
pub open spec fn tells<V>(before: CacheView<V>, after: CacheView<V>) -> bool {
    let old = before.notices;
    let new = after.notices;
    if after.stats.evictions == before.stats.evictions {
        new == old
    } else if before.stats.evictions == 0 {
        new == old.push(CacheNotice::Full { vectors: after.stats.inserts })
    } else if after.stats.evictions % NOTICE_INTERVAL == 0 {
        new == old.push(
            CacheNotice::Progress { capacity: before.cap as usize, stats: after.stats },
        )
    } else {
        new == old
    }
}

/// Both operations that insert tell what there is to tell, and keep what was told before.
pub proof fn lemma_insertions_tell<V>(cache: CacheView<V>, key: u64, value: V)
    requires
        cache.consistent(),
        cache.stats.inserts < usize::MAX,
        cache.stats.misses < usize::MAX,
    ensures
        tells(cache, cache.after_push(key, value)),
        tells(cache, cache.after_get_or_insert(key, value)),
        NOTICE_INTERVAL == 10000,
{
}

/// A new cache is empty: nothing is held, counted or told.
pub proof fn lemma_fresh<V>(cap: nat, name: Seq<char>)
    ensures
        ({
            let cache = CacheView::<V>::fresh(cap, name);
            &&& cache.entries.len() == 0
            &&& cache.notices.len() == 0
            &&& cache.cap == cap
            &&& cache.name == name
            &&& cache.stats.inserts == 0
            &&& cache.stats.updates == 0
            &&& cache.stats.hits == 0
            &&& cache.stats.misses == 0
            &&& cache.stats.evictions == 0
            &&& 0 < cap <= usize::MAX ==> cache.consistent()
        }),
{
}

/// What every cache keeps: no key is held twice, no more entries than there is room for, and as
/// many entries were inserted as are held or were evicted.
pub proof fn lemma_always<V>(cache: CacheView<V>)
    requires
        cache.consistent(),
    ensures
        forall|i: int, j: int|
            0 <= i < j < cache.entries.len() ==> (#[trigger] cache.entries[i]).0 != (
            #[trigger] cache.entries[j]).0,
        0 < cache.cap,
        cache.entries.len() <= cache.cap,
        cache.stats.inserts == cache.stats.evictions + cache.entries.len(),
{
}

/// The text of a notice: the name, and what there is to say, with its numbers.
pub proof fn lemma_notice_text(name: Seq<char>, notice: CacheNotice)
    ensures
        notice matches CacheNotice::Full { vectors } ==> notice.text(name) == name
            + " cache is full after processing "@ + decimal(vectors as nat)
            + " vectors; consider increasing maintenance_work_mem"@,
        notice matches CacheNotice::Progress { capacity, stats } ==> notice.text(name) == name
            + " cache capacity "@ + decimal(capacity as nat) + ", stats: "@ + stats.text(),
{
}

/// The counts as text: each by its name.
pub proof fn lemma_stats_text(stats: CacheStats)
    ensures
        (stats.text() == "CacheStats { inserts: "@ + decimal(stats.inserts as nat) + ", updates: "@
            + decimal(stats.updates as nat) + ", hits: "@ + decimal(stats.hits as nat)
            + ", misses: "@ + decimal(stats.misses as nat) + ", evictions: "@ + decimal(
            stats.evictions as nat,
        ) + " }"@),
{
}

} // verus!
