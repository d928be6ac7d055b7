//! Which keys were used when: the order that `lru::LruCache` keeps, and what is relied on of
//! that crate.
//!
//! A sequence of pairs stands for a cache, from the least to the most recently used pair. The
//! crate's cache maps keys to slot numbers; the values themselves stand in a slab.

use vstd::prelude::*;

verus! {

/// Whether some pair of `s` has the key `key`.
pub open spec fn has_key<V>(s: Seq<(u64, V)>, key: u64) -> bool {
    exists|i: int| 0 <= i < s.len() && (#[trigger] s[i]).0 == key
}

/// Where the pair with the key `key` stands in `s`.
pub open spec fn position<V>(s: Seq<(u64, V)>, key: u64) -> int {
    choose|i: int| 0 <= i < s.len() && (#[trigger] s[i]).0 == key
}

/// No key stands in `s` twice.
pub open spec fn distinct_keys<V>(s: Seq<(u64, V)>) -> bool {
    forall|i: int, j: int|
        0 <= i < j < s.len() ==> (#[trigger] s[i]).0 != (#[trigger] s[j]).0
}

/// The value that `s` holds for `key`.
pub open spec fn value_of<V>(s: Seq<(u64, V)>, key: u64) -> V {
    s[position(s, key)].1
}

/// `s` after a use of `key`: its pair, if there is one, is the most recently used.
pub open spec fn touched<V>(s: Seq<(u64, V)>, key: u64) -> Seq<(u64, V)> {
    if has_key(s, key) {
        s.remove(position(s, key)).push((key, value_of(s, key)))
    } else {
        s
    }
}

/// `s` after `value` was put in for `key`, where at most `cap` pairs are kept: the pair is the
/// most recently used. It replaces one with the same key; else, in a full cache, the least
/// recently used pair makes room for it.
pub open spec fn pushed<V>(s: Seq<(u64, V)>, cap: nat, key: u64, value: V) -> Seq<(u64, V)> {
    if has_key(s, key) {
        s.remove(position(s, key)).push((key, value))
    } else if s.len() == cap {
        s.drop_first().push((key, value))
    } else {
        s.push((key, value))
    }
}

/// The pair that leaves when a pair with the key `key` is put into `s`.
pub open spec fn displaced<V>(s: Seq<(u64, V)>, cap: nat, key: u64) -> Option<(u64, V)> {
    if has_key(s, key) {
        Some((key, value_of(s, key)))
    } else if s.len() == cap {
        Some(s[0])
    } else {
        None
    }
}

/// Where keys are distinct, a key stands at one place only.
pub proof fn lemma_position<V>(s: Seq<(u64, V)>, i: int)
    requires
        distinct_keys(s),
        0 <= i < s.len(),
    ensures
        has_key(s, s[i].0),
        position(s, s[i].0) == i,
        value_of(s, s[i].0) == s[i].1,
{
    let p = position(s, s[i].0);
    assert(s[p].0 == s[i].0);
}

/// Putting a pair in keeps the keys distinct and the cache within its capacity, and the value
/// that was put in is the one found for its key.
pub proof fn lemma_pushed<V>(s: Seq<(u64, V)>, cap: nat, key: u64, value: V)
    requires
        distinct_keys(s),
        s.len() <= cap,
        0 < cap,
    ensures
        distinct_keys(pushed(s, cap, key, value)),
        pushed(s, cap, key, value).len() <= cap,
        has_key(pushed(s, cap, key, value), key),
        value_of(pushed(s, cap, key, value), key) == value,
{
    let r = pushed(s, cap, key, value);
    assert(distinct_keys(r)) by {
        assert forall|i: int, j: int| 0 <= i < j < r.len() implies (#[trigger] r[i]).0 != (
        #[trigger] r[j]).0 by {
            if has_key(s, key) {
                let p = position(s, key);
                let a = if i < p { i } else { i + 1 };
                assert(r[i] == s[a]);
                if j < r.len() - 1 {
                    let b = if j < p { j } else { j + 1 };
                    assert(r[j] == s[b]);
                } else {
                    assert(s[p].0 == key);
                }
            } else if s.len() == cap {
                assert(r[i] == s[i + 1]);
                if j < r.len() - 1 {
                    assert(r[j] == s[j + 1]);
                }
            }
        }
    }
    assert(r[r.len() - 1] == (key, value));
    lemma_position(r, r.len() - 1);
}

/// A use of a key keeps the pairs: only their order changes.
pub proof fn lemma_touched<V>(s: Seq<(u64, V)>, key: u64)
    requires
        distinct_keys(s),
    ensures
        distinct_keys(touched(s, key)),
        touched(s, key).len() == s.len(),
        touched(s, key).to_multiset() =~= s.to_multiset(),
{
    broadcast use vstd::seq_lib::group_to_multiset_ensures;

    if has_key(s, key) {
        let p = position(s, key);
        assert(s[p].0 == key);
        lemma_pushed(s, s.len(), key, value_of(s, key));
        assert(touched(s, key) == pushed(s, s.len(), key, value_of(s, key)));
        assert(s[p] == (key, value_of(s, key)));
        vstd::seq_lib::to_multiset_remove(s, p);
        assert(s.to_multiset().count(s[p]) > 0) by {
            assert(s.contains(s[p]));
        }
    }
}

/// The cache of the `lru` crate.
#[verifier::external_type_specification]
#[verifier::external_body]
#[verifier::reject_recursive_types(K)]
#[verifier::reject_recursive_types(V)]
#[verifier::reject_recursive_types(S)]
pub struct ExLruCache<K, V, S>(::lru::LruCache<K, V, S>);

/// The hasher that the `lru` crate uses where none is given.
#[verifier::external_type_specification]
#[verifier::external_body]
pub struct ExDefaultHasher(::lru::DefaultHasher);

/// What a cache of the `lru` crate holds: its pairs, from the least to the most recently used.
pub uninterp spec fn lru_entries(cache: ::lru::LruCache<u64, usize>) -> Seq<(u64, usize)>;

/// How many pairs a cache of the `lru` crate holds at most.
pub uninterp spec fn lru_cap(cache: ::lru::LruCache<u64, usize>) -> nat;

/// `lru::LruCache::new`: an empty cache for `cap` pairs.
///
/// It reserves a hash table for that many pairs at once, and the reservation panics where the
/// table's size does not fit in an `isize`. A table has fewer than three buckets for each pair,
/// of two pointers and one control byte each, so a `usize::MAX / 128`th is well within that.
#[verifier::external_body]
pub(crate) fn lru_new(cap: usize) -> (r: ::lru::LruCache<u64, usize>)
    requires
        0 < cap <= usize::MAX / 128,
    ensures
        lru_entries(r) == Seq::<(u64, usize)>::empty(),
        lru_cap(r) == cap,
{
    ::lru::LruCache::new(std::num::NonZeroUsize::new(cap).unwrap())
}

/// `lru::LruCache::unbounded`: an empty cache whose capacity is the largest `usize`. It reserves
/// nothing.
#[verifier::external_body]
pub(crate) fn lru_unbounded() -> (r: ::lru::LruCache<u64, usize>)
    ensures
        lru_entries(r) == Seq::<(u64, usize)>::empty(),
        lru_cap(r) == usize::MAX,
{
    ::lru::LruCache::unbounded()
}

/// `lru::LruCache::resize`: sets the capacity; the least recently used pairs leave until the
/// rest fit.
#[verifier::external_body]
pub(crate) fn lru_resize(cache: &mut ::lru::LruCache<u64, usize>, cap: usize)
    requires
        0 < cap,
    ensures
        lru_cap(*final(cache)) == cap,
        lru_entries(*final(cache)) == (if lru_entries(*old(cache)).len() > cap {
            lru_entries(*old(cache)).skip(lru_entries(*old(cache)).len() - cap)
        } else {
            lru_entries(*old(cache))
        }),
{
    cache.resize(std::num::NonZeroUsize::new(cap).unwrap())
}

/// `lru::LruCache::cap`: the capacity. It is never zero.
#[verifier::external_body]
pub(crate) fn lru_capacity(cache: &::lru::LruCache<u64, usize>) -> (r: usize)
    ensures
        r == lru_cap(*cache),
        r > 0,
{
    cache.cap().get()
}

/// `lru::LruCache::len`: how many pairs the cache holds.
#[verifier::external_body]
pub(crate) fn lru_len(cache: &::lru::LruCache<u64, usize>) -> (r: usize)
    ensures
        r == lru_entries(*cache).len(),
{
    cache.len()
}

/// `lru::LruCache::push`: puts a pair in as the most recently used. It gives back the pair that
/// had the same key, or else the least recently used one where the cache was full.
#[verifier::external_body]
pub(crate) fn lru_push(cache: &mut ::lru::LruCache<u64, usize>, key: u64, slot: usize) -> (r:
    Option<(u64, usize)>)
    ensures
        lru_cap(*final(cache)) == lru_cap(*old(cache)),
        lru_entries(*final(cache)) == pushed(
            lru_entries(*old(cache)),
            lru_cap(*old(cache)),
            key,
            slot,
        ),
        r == displaced(lru_entries(*old(cache)), lru_cap(*old(cache)), key),
{
    cache.push(key, slot)
}

/// `lru::LruCache::get`: the slot of a key, which becomes the most recently used one.
#[verifier::external_body]
pub(crate) fn lru_get(cache: &mut ::lru::LruCache<u64, usize>, key: u64) -> (r: Option<usize>)
    ensures
        lru_cap(*final(cache)) == lru_cap(*old(cache)),
        lru_entries(*final(cache)) == touched(lru_entries(*old(cache)), key),
        r == (if has_key(lru_entries(*old(cache)), key) {
            Some(value_of(lru_entries(*old(cache)), key))
        } else {
            None
        }),
{
    cache.get(&key).copied()
}

/// `lru::LruCache::get_or_insert`: the slot of a key, which becomes the most recently used one.
/// The initializer runs only where the key is absent; `slot` is then put in for it as
/// `lru_push` does, and the initializer's value is left in `fresh`.
#[verifier::external_body]
pub(crate) fn lru_get_or_insert<V, F: FnOnce() -> V>(
    cache: &mut ::lru::LruCache<u64, usize>,
    key: u64,
    slot: usize,
    f: F,
    fresh: &mut Option<V>,
) -> (r: usize)
    requires
        !has_key(lru_entries(*old(cache)), key) ==> call_requires(f, ()),
    ensures
        lru_cap(*final(cache)) == lru_cap(*old(cache)),
        has_key(lru_entries(*old(cache)), key) ==> {
            &&& r == value_of(lru_entries(*old(cache)), key)
            &&& lru_entries(*final(cache)) == touched(lru_entries(*old(cache)), key)
            &&& *final(fresh) == *old(fresh)
        },
        !has_key(lru_entries(*old(cache)), key) ==> {
            &&& r == slot
            &&& lru_entries(*final(cache)) == pushed(
                lru_entries(*old(cache)),
                lru_cap(*old(cache)),
                key,
                slot,
            )
            &&& *final(fresh) matches Some(value) && call_ensures(f, (), value)
        },
{
    *cache.get_or_insert(key, || initialize(f, fresh, slot))
}

/// Runs `f`, leaves its value in `fresh` and answers with the slot that the value will have.
fn initialize<V, F: FnOnce() -> V>(f: F, fresh: &mut Option<V>, slot: usize) -> (r: usize)
    requires
        call_requires(f, ()),
    ensures
        r == slot,
        *final(fresh) matches Some(value) && call_ensures(f, (), value),
{
    *fresh = Some(f());
    slot
}

/// `lru::LruCache::peek_lru`: the least recently used pair; the order does not change.
#[verifier::external_body]
pub(crate) fn lru_peek(cache: &::lru::LruCache<u64, usize>) -> (r: Option<(u64, usize)>)
    ensures
        r == (if lru_entries(*cache).len() > 0 {
            Some(lru_entries(*cache)[0])
        } else {
            None
        }),
{
    cache.peek_lru().map(|(key, slot)| (*key, *slot))
}

/// `lru::LruCache::pop_lru`: takes the least recently used pair out.
#[verifier::external_body]
pub(crate) fn lru_pop(cache: &mut ::lru::LruCache<u64, usize>) -> (r: Option<(u64, usize)>)
    ensures
        lru_cap(*final(cache)) == lru_cap(*old(cache)),
        r == (if lru_entries(*old(cache)).len() > 0 {
            Some(lru_entries(*old(cache))[0])
        } else {
            None
        }),
        lru_entries(*final(cache)) == (if lru_entries(*old(cache)).len() > 0 {
            lru_entries(*old(cache)).drop_first()
        } else {
            lru_entries(*old(cache))
        }),
{
    cache.pop_lru()
}

} // verus!
