//! A bounded cache that forgets the least recently used entry first and counts what happens.

use vstd::prelude::*;
use vstd::string::StringExecFns;

use super::cache_laws::{lemma_found, lemma_get_or_insert_order, lemma_push_order, others};
use super::recency::{
    displaced, distinct_keys, has_key, lemma_position, lemma_pushed, lemma_touched, lru_cap,
    lru_capacity, lru_entries, lru_get, lru_get_or_insert, lru_len, lru_new, lru_peek, lru_pop,
    lru_push, lru_resize, lru_unbounded, position, pushed, touched, value_of,
};
use super::slab::Slab;
use super::text::{append_decimal, decimal};

verus! {

/// After how many evictions a progress notice is due again.
pub const NOTICE_INTERVAL: usize = 10000;

/// What a cache has counted.
#[derive(Copy, Clone, Debug, PartialEq, Eq, Structural)]
pub struct CacheStats {
    pub inserts: usize,
    pub updates: usize,
    pub hits: usize,
    pub misses: usize,
    pub evictions: usize,
}

impl Default for CacheStats {
    fn default() -> (r: Self)
        ensures
            r == CacheStats::zero(),
    {
        CacheStats { inserts: 0, updates: 0, hits: 0, misses: 0, evictions: 0 }
    }
}

/// Something that a cache wants its user told.
#[derive(Copy, Clone, Debug, PartialEq, Eq, Structural)]
pub enum CacheNotice {
    /// The cache filled up: the first eviction came with the insertion of this many vectors. A
    /// larger memory budget would avoid it.
    Full { vectors: usize },
    /// A round number of evictions was reached.
    Progress { capacity: usize, stats: CacheStats },
}

impl CacheStats {
    /// The counts of a new cache.
    pub open spec fn zero() -> CacheStats {
        CacheStats { inserts: 0, updates: 0, hits: 0, misses: 0, evictions: 0 }
    }

    /// The counts after one more insertion, which pushed another entry out where `evicted`.
    pub open spec fn after_insert(self, evicted: bool) -> CacheStats {
        CacheStats {
            inserts: (self.inserts + 1) as usize,
            evictions: if evicted {
                (self.evictions + 1) as usize
            } else {
                self.evictions
            },
            ..self
        }
    }

    /// What is to be told of that insertion: that the cache is full, where no entry left it
    /// before; how it fares, at every round number of evictions.
    pub open spec fn insert_notice(self, evicted: bool, capacity: usize) -> Option<CacheNotice> {
        if !evicted {
            None
        } else if self.evictions == 0 {
            Some(CacheNotice::Full { vectors: (self.inserts + 1) as usize })
        } else if (self.evictions + 1) % (NOTICE_INTERVAL as int) == 0 {
            Some(CacheNotice::Progress { capacity, stats: self.after_insert(true) })
        } else {
            None
        }
    }

    pub open spec fn after_update(self) -> CacheStats {
        CacheStats { updates: (self.updates + 1) as usize, ..self }
    }

    pub open spec fn after_hit(self) -> CacheStats {
        CacheStats { hits: (self.hits + 1) as usize, ..self }
    }

    pub open spec fn after_miss(self) -> CacheStats {
        CacheStats { misses: (self.misses + 1) as usize, ..self }
    }

    pub open spec fn after_removal(self) -> CacheStats {
        CacheStats { evictions: (self.evictions + 1) as usize, ..self }
    }

    /// Counts one more insertion, and says what is to be told of it.
    pub fn record_insert(&mut self, evicted: bool, capacity: usize) -> (notice: Option<CacheNotice>)
        requires
            old(self).inserts < usize::MAX,
            evicted ==> old(self).evictions < usize::MAX,
        ensures
            *final(self) == old(self).after_insert(evicted),
            notice == old(self).insert_notice(evicted, capacity),
    {
        self.inserts = self.inserts + 1;
        if evicted {
            let first = self.evictions == 0;
            self.evictions = self.evictions + 1;
            if first {
                return Some(CacheNotice::Full { vectors: self.inserts });
            }
            if self.evictions % NOTICE_INTERVAL == 0 {
                return Some(CacheNotice::Progress { capacity, stats: *self });
            }
        }
        None
    }
}

impl CacheStats {
    /// The counts as text.
    pub open spec fn text(self) -> Seq<char> {
        "CacheStats { inserts: "@ + decimal(self.inserts as nat) + ", updates: "@ + decimal(
            self.updates as nat,
        ) + ", hits: "@ + decimal(self.hits as nat) + ", misses: "@ + decimal(self.misses as nat)
            + ", evictions: "@ + decimal(self.evictions as nat) + " }"@
    }

    fn append_to(&self, text: &mut String)
        ensures
            final(text)@ == old(text)@ + self.text(),
    {
        let ghost before = text@;
        text.append("CacheStats { inserts: ");
        append_decimal(text, self.inserts);
        text.append(", updates: ");
        append_decimal(text, self.updates);
        text.append(", hits: ");
        append_decimal(text, self.hits);
        text.append(", misses: ");
        append_decimal(text, self.misses);
        text.append(", evictions: ");
        append_decimal(text, self.evictions);
        text.append(" }");
        assert(text@ =~= before + self.text());
    }

    /// What is logged when a cache of this name and capacity is given up.
    pub fn teardown_message(&self, cache_name: &str, capacity: usize) -> (r: String)
        ensures
            r@ == cache_name@ + " cache teardown: capacity "@ + decimal(capacity as nat)
                + ", stats: "@ + self.text(),
    {
        let mut text = cache_name.to_string();
        text.append(" cache teardown: capacity ");
        append_decimal(&mut text, capacity);
        text.append(", stats: ");
        self.append_to(&mut text);
        text
    }
}

impl CacheNotice {
    /// What a cache of this name has to say.
    pub open spec fn text(self, cache_name: Seq<char>) -> Seq<char> {
        match self {
            CacheNotice::Full { vectors } => cache_name + " cache is full after processing "@
                + decimal(vectors as nat)
                + " vectors; consider increasing maintenance_work_mem"@,
            CacheNotice::Progress { capacity, stats } => cache_name + " cache capacity "@ + decimal(
                capacity as nat,
            ) + ", stats: "@ + stats.text(),
        }
    }

    /// What a cache of this name has to say.
    pub fn message(&self, cache_name: &str) -> (r: String)
        ensures
            r@ == self.text(cache_name@),
    {
        let mut text = cache_name.to_string();
        match self {
            CacheNotice::Full { vectors } => {
                text.append(" cache is full after processing ");
                append_decimal(&mut text, *vectors);
                text.append(" vectors; consider increasing maintenance_work_mem");
            },
            CacheNotice::Progress { capacity, stats } => {
                text.append(" cache capacity ");
                append_decimal(&mut text, *capacity);
                text.append(", stats: ");
                stats.append_to(&mut text);
            },
        }
        text
    }

    /// Whether this is a warning. Other notices are of interest to developers only.
    pub fn is_warning(&self) -> (r: bool)
        ensures
            r == (*self is Full),
    {
        match self {
            CacheNotice::Full { .. } => true,
            CacheNotice::Progress { .. } => false,
        }
    }
}

/// What a cache is to its users.
#[verifier::ext_equal]
pub struct CacheView<V> {
    /// The entries, from the least to the most recently used.
    pub entries: Seq<(u64, V)>,
    /// How many entries are kept at most.
    pub cap: nat,
    /// What the cache is called in notices.
    pub name: Seq<char>,
    pub stats: CacheStats,
    /// The notices that nobody took yet, oldest first.
    pub notices: Seq<CacheNotice>,
}

impl<V> CacheView<V> {
    /// A cache that nothing was put into.
    pub open spec fn fresh(cap: nat, name: Seq<char>) -> CacheView<V> {
        CacheView {
            entries: Seq::empty(),
            cap,
            name,
            stats: CacheStats::zero(),
            notices: Seq::empty(),
        }
    }

    /// What holds of every cache: keys are distinct, no more entries are held than the capacity
    /// allows, and every entry that was inserted is either still held or was evicted.
    pub open spec fn consistent(self) -> bool {
        &&& distinct_keys(self.entries)
        &&& 0 < self.cap <= usize::MAX
        &&& self.entries.len() <= self.cap
        &&& self.stats.inserts == self.stats.evictions + self.entries.len()
    }

    pub open spec fn is_full(self) -> bool {
        self.entries.len() == self.cap
    }

    pub open spec fn with_notice(self, notice: Option<CacheNotice>) -> Seq<CacheNotice> {
        match notice {
            Some(n) => self.notices.push(n),
            None => self.notices,
        }
    }

    /// The cache after a new entry came in, counted from `stats`.
    pub open spec fn after_insert(self, stats: CacheStats, key: u64, value: V) -> CacheView<V> {
        CacheView {
            entries: pushed(self.entries, self.cap, key, value),
            stats: stats.after_insert(self.is_full()),
            notices: self.with_notice(stats.insert_notice(self.is_full(), self.cap as usize)),
            ..self
        }
    }

    /// The cache after `push`.
    pub open spec fn after_push(self, key: u64, value: V) -> CacheView<V> {
        if has_key(self.entries, key) {
            CacheView {
                entries: pushed(self.entries, self.cap, key, value),
                stats: self.stats.after_update(),
                ..self
            }
        } else {
            self.after_insert(self.stats, key, value)
        }
    }

    /// What `push` answers: the entry that was evicted. An entry that was replaced is not.
    pub open spec fn push_result(self, key: u64) -> Option<(u64, V)> {
        if !has_key(self.entries, key) && self.is_full() {
            Some(self.entries[0])
        } else {
            None
        }
    }

    /// The cache after a lookup that found `key`, or did not.
    pub open spec fn after_get(self, key: u64) -> CacheView<V> {
        CacheView {
            entries: touched(self.entries, key),
            stats: if has_key(self.entries, key) {
                self.stats.after_hit()
            } else {
                self.stats.after_miss()
            },
            ..self
        }
    }

    /// The cache after `get_or_insert`, where `value` is what the initializer made.
    pub open spec fn after_get_or_insert(self, key: u64, value: V) -> CacheView<V> {
        if has_key(self.entries, key) {
            self.after_get(key)
        } else {
            self.after_insert(self.stats.after_miss(), key, value)
        }
    }

    /// The cache after its least recently used entry was taken out.
    pub open spec fn after_pop(self) -> CacheView<V> {
        if self.entries.len() > 0 {
            CacheView {
                entries: self.entries.drop_first(),
                stats: self.stats.after_removal(),
                ..self
            }
        } else {
            self
        }
    }
}

/// A push loses nothing and makes nothing up. The pair that was pushed is held. Every other
/// entry that was held is still held, or is what the push hands out, and never both; and no
/// entry is held that was not held before.
pub proof fn lemma_push_conserves<V>(cache: CacheView<V>, key: u64, value: V)
    requires
        cache.consistent(),
    ensures
        cache.after_push(key, value).entries.contains((key, value)),
        forall|e: (u64, V)|
            e.0 != key ==> (cache.entries.contains(e) <==> {
                ||| #[trigger] cache.after_push(key, value).entries.contains(e)
                ||| cache.push_result(key) == Some(e)
            }),
        cache.push_result(key) matches Some(e) ==> e.0 != key && !has_key(
            cache.after_push(key, value).entries,
            e.0,
        ),
{
    let s = cache.entries;
    let r = cache.after_push(key, value).entries;
    // The place of the pair that leaves; past the end where none does.
    let p = if has_key(s, key) {
        position(s, key)
    } else if cache.is_full() {
        0
    } else {
        s.len() as int
    };
    assert(has_key(s, key) ==> 0 <= p < s.len() && s[p].0 == key);
    assert(r[r.len() - 1] == (key, value));
    assert forall|i: int| 0 <= i < r.len() - 1 implies #[trigger] r[i] == s[if i < p {
        i
    } else {
        i + 1
    }] by {}
    assert forall|e: (u64, V)| e.0 != key implies (s.contains(e) <==> {
        ||| #[trigger] r.contains(e)
        ||| cache.push_result(key) == Some(e)
    }) by {
        if s.contains(e) {
            let i = s.index_of(e);
            if i < p {
                assert(r[i] == e);
            } else if i > p {
                assert(r[i - 1] == e);
            }
        }
        if r.contains(e) {
            let i = r.index_of(e);
            assert(r[i] == s[if i < p {
                i
            } else {
                i + 1
            }]);
        }
    }
    if let Some(e) = cache.push_result(key) {
        assert(s[0].0 == e.0);
        if has_key(r, e.0) {
            let i = position(r, e.0);
            assert(r[i].0 == e.0);
            assert(r[i] == s[i + 1]);
        }
    }
}

/// What is pushed is found: a lookup that follows is a hit and gives the value that was pushed.
pub proof fn lemma_push_then_get<V>(cache: CacheView<V>, key: u64, value: V)
    requires
        cache.consistent(),
    ensures
        has_key(cache.after_push(key, value).entries, key),
        value_of(cache.after_push(key, value).entries, key) == value,
        cache.after_push(key, value).after_get(key).stats == cache.after_push(
            key,
            value,
        ).stats.after_hit(),
{
    lemma_pushed(cache.entries, cache.cap, key, value);
}

/// A lookup keeps the entries: only their order changes. It counts one hit or one miss, and
/// nothing else.
pub proof fn lemma_get_keeps<V>(cache: CacheView<V>, key: u64)
    requires
        cache.consistent(),
    ensures
        cache.after_get(key).entries.to_multiset() == cache.entries.to_multiset(),
        cache.after_get(key).stats == (if has_key(cache.entries, key) {
            cache.stats.after_hit()
        } else {
            cache.stats.after_miss()
        }),
{
    lemma_touched(cache.entries, key);
}

/// A lookup that fills the cache where it has to counts one hit or one miss too, and the value
/// that it gave is held from then on.
pub proof fn lemma_get_or_insert_keeps<V>(cache: CacheView<V>, key: u64, value: V)
    requires
        cache.consistent(),
        has_key(cache.entries, key) ==> cache.stats.hits < usize::MAX,
        !has_key(cache.entries, key) ==> cache.stats.misses < usize::MAX,
        has_key(cache.entries, key) ==> value == value_of(cache.entries, key),
    ensures
        ({
            let after = cache.after_get_or_insert(key, value);
            &&& after.stats.hits + after.stats.misses == cache.stats.hits + cache.stats.misses + 1
            &&& after.stats.updates == cache.stats.updates
            &&& has_key(after.entries, key)
            &&& value_of(after.entries, key) == value
        }),
{
    if has_key(cache.entries, key) {
        lemma_touched(cache.entries, key);
        let t = cache.after_get(key).entries;
        assert(t[t.len() - 1] == (key, value));
        lemma_position(t, t.len() - 1);
    } else {
        lemma_pushed(cache.entries, cache.cap, key, value);
    }
}

/// Where the cache has room for more than one entry, an entry that was just used survives the
/// next push: it is not the least recently used one.
pub proof fn lemma_recent_stays<V>(cache: CacheView<V>, key: u64, other: u64, value: V)
    requires
        cache.consistent(),
        cache.cap > 1,
        has_key(cache.entries, key),
        other != key,
    ensures
        has_key(cache.after_get(key).after_push(other, value).entries, key),
        value_of(cache.after_get(key).after_push(other, value).entries, key) == value_of(
            cache.entries,
            key,
        ),
{
    lemma_touched(cache.entries, key);
    let used = cache.after_get(key);
    let t = used.entries;
    let e = (key, value_of(cache.entries, key));
    assert(t[t.len() - 1] == e);
    lemma_push_conserves(used, other, value);
    lemma_pushed(t, used.cap, other, value);
    assert(t.contains(e));
    if used.push_result(other) == Some(e) {
        assert(t[0].0 == t[t.len() - 1].0);
    }
    let r = used.after_push(other, value).entries;
    assert(r.contains(e));
    lemma_position(r, r.index_of(e));
}

/// The notice that the cache is full comes with the first eviction and never again: it asks for
/// a count of no evictions, and leaves a count of one. No operation lowers that count.
pub proof fn lemma_full_notice_once<V>(cache: CacheView<V>, key: u64, value: V)
    requires
        cache.consistent(),
        cache.stats.inserts < usize::MAX,
    ensures
        announces_full(cache, cache.after_push(key, value)) <==> cache.push_result(key) is Some
            && cache.stats.evictions == 0,
        announces_full(cache, cache.after_get_or_insert(key, value)) <==> cache.push_result(
            key,
        ) is Some && cache.stats.evictions == 0,
        cache.after_push(key, value).stats.evictions == cache.stats.evictions + (
        if cache.push_result(key) is Some {
            1int
        } else {
            0
        }),
        cache.after_get_or_insert(key, value).stats.evictions == cache.stats.evictions + (
        if cache.push_result(key) is Some {
            1int
        } else {
            0
        }),
        cache.after_get(key).stats.evictions == cache.stats.evictions,
        cache.after_pop().stats.evictions >= cache.stats.evictions,
{
    lemma_announced(cache, cache.stats, key, value);
    lemma_announced(cache, cache.stats.after_miss(), key, value);
    if has_key(cache.entries, key) {
        assert(cache.notices.len() != cache.notices.len() + 1);
    }
}

proof fn lemma_announced<V>(cache: CacheView<V>, stats: CacheStats, key: u64, value: V)
    requires
        cache.consistent(),
        stats.inserts < usize::MAX,
        stats.evictions == cache.stats.evictions,
    ensures
        announces_full(cache, cache.after_insert(stats, key, value)) <==> cache.is_full()
            && cache.stats.evictions == 0,
{
    let after = cache.after_insert(stats, key, value);
    let vectors = (stats.inserts + 1) as usize;
    if cache.is_full() && cache.stats.evictions == 0 {
        assert(after.notices == cache.notices.push(full_notice(vectors)));
    }
    if announces_full(cache, after) {
        let v = choose|v: usize| after.notices == cache.notices.push(#[trigger] full_notice(v));
        assert(cache.notices.push(full_notice(v)).len() == cache.notices.len() + 1);
        assert(after.notices[cache.notices.len() as int] == full_notice(v));
    }
}

/// Whether one notice came from `before` to `after`, and it says that the cache filled up.
pub open spec fn announces_full<V>(before: CacheView<V>, after: CacheView<V>) -> bool {
    exists|vectors: usize| after.notices == before.notices.push(#[trigger] full_notice(vectors))
}

/// The notice that a cache filled up.
pub open spec fn full_notice(vectors: usize) -> CacheNotice {
    CacheNotice::Full { vectors }
}

/// A use of a cache by one key.
pub enum CacheStep<V> {
    /// A lookup.
    Get(u64),
    /// A value that was pushed.
    Push(u64, V),
}

impl<V> CacheStep<V> {
    pub open spec fn key(self) -> u64 {
        match self {
            CacheStep::Get(key) => key,
            CacheStep::Push(key, _) => key,
        }
    }

    /// The entries after this step, where at most `cap` are kept.
    pub open spec fn apply(self, entries: Seq<(u64, V)>, cap: nat) -> Seq<(u64, V)> {
        match self {
            CacheStep::Get(key) => touched(entries, key),
            CacheStep::Push(key, value) => pushed(entries, cap, key, value),
        }
    }
}

/// The entries after several steps.
pub open spec fn after_steps<V>(
    entries: Seq<(u64, V)>,
    cap: nat,
    steps: Seq<CacheStep<V>>,
) -> Seq<(u64, V)>
    decreases steps.len(),
{
    if steps.len() == 0 {
        entries
    } else {
        steps.last().apply(after_steps(entries, cap, steps.drop_last()), cap)
    }
}

/// The keys that several steps use.
pub open spec fn step_keys<V>(steps: Seq<CacheStep<V>>) -> Set<u64>
    decreases steps.len(),
{
    if steps.len() == 0 {
        Set::empty()
    } else {
        step_keys(steps.drop_last()).insert(steps.last().key())
    }
}

/// Steps in two parts are steps.
pub proof fn lemma_steps_compose<V>(
    entries: Seq<(u64, V)>,
    cap: nat,
    a: Seq<CacheStep<V>>,
    b: Seq<CacheStep<V>>,
)
    ensures
        after_steps(after_steps(entries, cap, a), cap, b) == after_steps(entries, cap, a + b),
    decreases b.len(),
{
    if b.len() == 0 {
        assert(a + b =~= a);
    } else {
        lemma_steps_compose(entries, cap, a, b.drop_last());
        assert((a + b).drop_last() =~= a + b.drop_last());
    }
}

/// The most recently used entry stays, with its value, as long as fewer other keys are used than
/// the cache has room for.
pub proof fn lemma_kept_among_few<V>(
    entries: Seq<(u64, V)>,
    cap: nat,
    key: u64,
    value: V,
    steps: Seq<CacheStep<V>>,
)
    requires
        distinct_keys(entries),
        0 < entries.len() <= cap,
        entries.last() == (key, value),
        !step_keys(steps).contains(key),
        step_keys(steps).len() < cap,
    ensures
        distinct_keys(after_steps(entries, cap, steps)),
        after_steps(entries, cap, steps).len() <= cap,
        has_key(after_steps(entries, cap, steps), key),
        value_of(after_steps(entries, cap, steps), key) == value,
{
    lemma_younger(entries, cap, key, value, steps);
    let t = after_steps(entries, cap, steps);
    lemma_position(t, position(t, key));
}

/// An entry that was the most recently used one is still held, and the entries that were used
/// since are those of the steps.
proof fn lemma_younger<V>(
    entries: Seq<(u64, V)>,
    cap: nat,
    key: u64,
    value: V,
    steps: Seq<CacheStep<V>>,
)
    requires
        distinct_keys(entries),
        0 < entries.len() <= cap,
        entries.last() == (key, value),
        !step_keys(steps).contains(key),
        step_keys(steps).len() < cap,
    ensures
        step_keys(steps).finite(),
        distinct_keys(after_steps(entries, cap, steps)),
        after_steps(entries, cap, steps).len() <= cap,
        has_key(after_steps(entries, cap, steps), key),
        ({
            let t = after_steps(entries, cap, steps);
            let p = position(t, key);
            &&& t[p] == (key, value)
            &&& forall|j: int|
                p < j < t.len() ==> step_keys(steps).contains((#[trigger] t[j]).0)
        }),
    decreases steps.len(),
{
    if steps.len() == 0 {
        lemma_position(entries, entries.len() - 1);
    } else {
        let rest = steps.drop_last();
        let t = after_steps(entries, cap, rest);
        let k = steps.last().key();
        lemma_step_keys_finite(rest);
        lemma_younger(entries, cap, key, value, rest);
        let p = position(t, key);
        assert(t[p].0 == key);
        let r = after_steps(entries, cap, steps);
        match steps.last() {
            CacheStep::Get(_) => {
                lemma_touched(t, k);
            },
            CacheStep::Push(_, v) => {
                lemma_pushed(t, cap, k, v);
            },
        }
        if has_key(t, k) || steps.last() is Push {
            // The place of the entry that leaves; past the end where none does.
            let q = if has_key(t, k) {
                position(t, k)
            } else if t.len() == cap {
                0
            } else {
                t.len() as int
            };
            if !has_key(t, k) && t.len() == cap && p == 0 {
                lemma_few_younger(t, cap, k, step_keys(steps));
            }
            assert(q != p) by {
                if has_key(t, k) {
                    assert(t[q].0 == k);
                }
            }
            assert forall|i: int| 0 <= i < r.len() - 1 implies #[trigger] r[i] == t[if i < q {
                i
            } else {
                i + 1
            }] by {}
            let here = if p < q {
                p
            } else {
                p - 1
            };
            assert(r[here] == t[p]);
            lemma_position(r, here);
            assert(r[r.len() - 1].0 == k);
            assert forall|j: int| here < j < r.len() implies step_keys(steps).contains(
                (#[trigger] r[j]).0,
            ) by {
                if j < r.len() - 1 {
                    let i = if j < q {
                        j
                    } else {
                        j + 1
                    };
                    assert(r[j] == t[i]);
                }
            }
        }
    }
}

proof fn lemma_step_keys_finite<V>(steps: Seq<CacheStep<V>>)
    ensures
        step_keys(steps).finite(),
        steps.len() > 0 ==> step_keys(steps.drop_last()).len() <= step_keys(steps).len(),
    decreases steps.len(),
{
    if steps.len() > 0 {
        lemma_step_keys_finite(steps.drop_last());
    }
}

/// In a full cache whose oldest entry has only younger ones from `used`, there are as many keys
/// in `used` as the cache has room for, once another key is used.
proof fn lemma_few_younger<V>(
    t: Seq<(u64, V)>,
    cap: nat,
    k: u64,
    used: Set<u64>,
)
    requires
        distinct_keys(t),
        t.len() == cap,
        0 < cap,
        !has_key(t, k),
        used.finite(),
        used.contains(k),
        forall|j: int| 0 < j < t.len() ==> used.contains((#[trigger] t[j]).0),
    ensures
        used.len() >= cap,
{
    let keys = Seq::new(t.len(), |i: int|
        if i == 0 {
            k
        } else {
            t[i].0
        });
    assert(keys.no_duplicates()) by {
        assert forall|i: int, j: int| 0 <= i < j < keys.len() implies keys[i] != keys[j] by {
            assert(t[j].0 != k);
            if i > 0 {
                assert(t[i].0 != t[j].0);
            }
        }
    }
    keys.unique_seq_to_set();
    assert(keys.to_set().subset_of(used)) by {
        assert forall|x: u64| keys.to_set().contains(x) implies used.contains(x) by {
            let i = keys.index_of(x);
            assert(keys[i] == x);
        }
    }
    vstd::set_lib::lemma_len_subset(keys.to_set(), used);
}

/// What a pair list says where slot numbers are read in `values`.
spec fn resolved<V>(pairs: Seq<(u64, usize)>, values: Map<usize, V>) -> Seq<(u64, V)> {
    Seq::new(pairs.len(), |i: int| (pairs[i].0, values[pairs[i].1]))
}

/// The pairs use each slot of `values` once, and no other slot.
spec fn linked<V>(pairs: Seq<(u64, usize)>, values: Map<usize, V>) -> bool {
    &&& forall|i: int, j: int|
        0 <= i < j < pairs.len() ==> (#[trigger] pairs[i]).1 != (#[trigger] pairs[j]).1
    &&& forall|i: int| 0 <= i < pairs.len() ==> values.contains_key((#[trigger] pairs[i]).1)
    &&& forall|slot: usize| #[trigger]
        values.contains_key(slot) ==> exists|i: int|
            0 <= i < pairs.len() && (#[trigger] pairs[i]).1 == slot
}

proof fn lemma_resolved_key<V>(pairs: Seq<(u64, usize)>, values: Map<usize, V>, key: u64)
    requires
        distinct_keys(pairs),
    ensures
        distinct_keys(resolved(pairs, values)),
        has_key(resolved(pairs, values), key) == has_key(pairs, key),
        has_key(pairs, key) ==> {
            &&& position(resolved(pairs, values), key) == position(pairs, key)
            &&& value_of(resolved(pairs, values), key) == values[value_of(pairs, key)]
            &&& 0 <= position(pairs, key) < pairs.len()
            &&& pairs[position(pairs, key)].0 == key
        },
{
    let r = resolved(pairs, values);
    assert forall|i: int, j: int| 0 <= i < j < r.len() implies (#[trigger] r[i]).0 != (
    #[trigger] r[j]).0 by {
        assert(pairs[i].0 != pairs[j].0);
    }
    if has_key(pairs, key) {
        let p = position(pairs, key);
        assert(pairs[p].0 == key);
        assert(r[p].0 == key);
        lemma_position(r, p);
    }
    if has_key(r, key) {
        let p = position(r, key);
        assert(r[p].0 == key);
        assert(pairs[p].0 == key);
    }
}

proof fn lemma_resolved_touched<V>(pairs: Seq<(u64, usize)>, values: Map<usize, V>, key: u64)
    requires
        distinct_keys(pairs),
        linked(pairs, values),
    ensures
        distinct_keys(touched(pairs, key)),
        linked(touched(pairs, key), values),
        resolved(touched(pairs, key), values) == touched(resolved(pairs, values), key),
{
    lemma_resolved_key(pairs, values, key);
    lemma_touched(pairs, key);
    if has_key(pairs, key) {
        let p = position(pairs, key);
        let t = touched(pairs, key);
        assert(t[t.len() - 1] == pairs[p]);
        assert forall|i: int| 0 <= i < t.len() - 1 implies #[trigger] t[i] == pairs[if i < p {
            i
        } else {
            i + 1
        }] by {}
        assert forall|slot: usize| #[trigger] values.contains_key(slot) implies exists|i: int|
            0 <= i < t.len() && (#[trigger] t[i]).1 == slot by {
            let i = choose|i: int| 0 <= i < pairs.len() && (#[trigger] pairs[i]).1 == slot;
            let j = if i < p {
                i
            } else if i == p {
                t.len() - 1
            } else {
                i - 1
            };
            assert(t[j] == pairs[i]);
        }
        assert(resolved(t, values) =~= touched(resolved(pairs, values), key));
    }
}

/// Putting a pair with an unused slot in, and its value into that slot, is putting the value
/// in. The slot of the pair that leaves is emptied.
proof fn lemma_resolved_pushed<V>(
    pairs: Seq<(u64, usize)>,
    values: Map<usize, V>,
    cap: nat,
    key: u64,
    slot: usize,
    value: V,
)
    requires
        distinct_keys(pairs),
        linked(pairs, values),
        pairs.len() <= cap,
        0 < cap,
        !values.contains_key(slot),
    ensures
        distinct_keys(pushed(pairs, cap, key, slot)),
        displaced(pairs, cap, key) matches Some(out) ==> {
            &&& values.contains_key(out.1)
            &&& out.1 != slot
            &&& displaced(resolved(pairs, values), cap, key) == Some((out.0, values[out.1]))
            &&& linked(pushed(pairs, cap, key, slot), values.insert(slot, value).remove(out.1))
            &&& resolved(
                pushed(pairs, cap, key, slot),
                values.insert(slot, value).remove(out.1),
            ) == pushed(resolved(pairs, values), cap, key, value)
        },
        displaced(pairs, cap, key) is None ==> {
            &&& displaced(resolved(pairs, values), cap, key) is None
            &&& linked(pushed(pairs, cap, key, slot), values.insert(slot, value))
            &&& resolved(pushed(pairs, cap, key, slot), values.insert(slot, value)) == pushed(
                resolved(pairs, values),
                cap,
                key,
                value,
            )
        },
{
    lemma_resolved_key(pairs, values, key);
    lemma_pushed(pairs, cap, key, slot);
    let t = pushed(pairs, cap, key, slot);
    // The place of the pair that leaves; past the end where none does.
    let p = if has_key(pairs, key) {
        position(pairs, key)
    } else if pairs.len() == cap {
        0
    } else {
        pairs.len() as int
    };
    let after = if p < pairs.len() {
        values.insert(slot, value).remove(pairs[p].1)
    } else {
        values.insert(slot, value)
    };
    assert(t[t.len() - 1] == (key, slot));
    assert forall|i: int| 0 <= i < t.len() - 1 implies #[trigger] t[i] == pairs[if i < p {
        i
    } else {
        i + 1
    }] by {}
    assert forall|s: usize| #[trigger] after.contains_key(s) implies exists|i: int|
        0 <= i < t.len() && (#[trigger] t[i]).1 == s by {
        if s == slot {
            assert(t[t.len() - 1].1 == s);
        } else {
            let i = choose|i: int| 0 <= i < pairs.len() && (#[trigger] pairs[i]).1 == s;
            let j = if i < p {
                i
            } else {
                i - 1
            };
            assert(t[j] == pairs[i]);
        }
    }
    assert(resolved(t, after) =~= pushed(resolved(pairs, values), cap, key, value));
}

proof fn lemma_resolved_popped<V>(pairs: Seq<(u64, usize)>, values: Map<usize, V>)
    requires
        distinct_keys(pairs),
        linked(pairs, values),
        pairs.len() > 0,
    ensures
        distinct_keys(pairs.drop_first()),
        linked(pairs.drop_first(), values.remove(pairs[0].1)),
        resolved(pairs.drop_first(), values.remove(pairs[0].1)) == resolved(
            pairs,
            values,
        ).drop_first(),
{
    let t = pairs.drop_first();
    let after = values.remove(pairs[0].1);
    assert forall|s: usize| #[trigger] after.contains_key(s) implies exists|i: int|
        0 <= i < t.len() && (#[trigger] t[i]).1 == s by {
        let i = choose|i: int| 0 <= i < pairs.len() && (#[trigger] pairs[i]).1 == s;
        assert(t[i - 1] == pairs[i]);
    }
    assert(resolved(t, after) =~= resolved(pairs, values).drop_first());
}

/// What a cache holds and may hold.
pub struct CacheParts<V> {
    /// The entries, from the least to the most recently used.
    pub entries: Vec<(u64, V)>,
    /// How many entries are kept at most.
    pub capacity: usize,
}

/// A cache of at most so many entries that tracks its statistics and leaves a notice when
/// entries start to be evicted.
///
/// Keys are integers. The `lru` crate keeps their order and decides which of them leaves; a
/// slab holds the values.
pub struct LruCacheWithStats<V> {
    cache: ::lru::LruCache<u64, usize>,
    values: Slab<V>,
    cache_name: String,
    stats: CacheStats,
    notices: Vec<CacheNotice>,
}

impl<V> View for LruCacheWithStats<V> {
    type V = CacheView<V>;

    closed spec fn view(&self) -> CacheView<V> {
        CacheView {
            entries: resolved(lru_entries(self.cache), self.values@),
            cap: lru_cap(self.cache),
            name: self.cache_name@,
            stats: self.stats,
            notices: self.notices@,
        }
    }
}

impl<V> LruCacheWithStats<V> {
    /// The slots in use are the slots of the entries, and the view is consistent.
    pub closed spec fn wf(&self) -> bool {
        &&& self.values.wf()
        &&& distinct_keys(lru_entries(self.cache))
        &&& linked(lru_entries(self.cache), self.values@)
        &&& self@.consistent()
    }

    /// Of a cache that is well-formed, what its view promises.
    pub proof fn lemma_consistent(&self)
        requires
            self.wf(),
        ensures
            self@.consistent(),
    {
    }

    /// A cache for at most `capacity` entries, reserved up front.
    pub fn new(capacity: usize, cache_name: &str) -> (r: Self)
        requires
            0 < capacity <= usize::MAX / 128,
        ensures
            r.wf(),
            r@ == CacheView::<V>::fresh(capacity as nat, cache_name@),
    {
        let r = LruCacheWithStats {
            cache: lru_new(capacity),
            values: Slab::new(),
            cache_name: cache_name.to_string(),
            stats: CacheStats::default(),
            notices: Vec::new(),
        };
        assert(r@ =~= CacheView::<V>::fresh(capacity as nat, cache_name@));
        r
    }

    /// Bounds entries without reserving the full capacity up front.
    pub fn new_lazy(capacity: usize, cache_name: &str) -> (r: Self)
        requires
            0 < capacity,
        ensures
            r.wf(),
            r@ == CacheView::<V>::fresh(capacity as nat, cache_name@),
    {
        let mut cache = lru_unbounded();
        lru_resize(&mut cache, capacity);
        let r = LruCacheWithStats {
            cache,
            values: Slab::new(),
            cache_name: cache_name.to_string(),
            stats: CacheStats::default(),
            notices: Vec::new(),
        };
        assert(r@ =~= CacheView::<V>::fresh(capacity as nat, cache_name@));
        r
    }

    /// How many entries the cache holds at most.
    pub fn cap(&self) -> (r: usize)
        requires
            self.wf(),
        ensures
            r == self@.cap,
            r > 0,
    {
        lru_capacity(&self.cache)
    }

    /// How many entries the cache holds.
    pub fn len(&self) -> (r: usize)
        requires
            self.wf(),
        ensures
            r == self@.entries.len(),
    {
        lru_len(&self.cache)
    }

    /// What the cache is called in notices.
    pub fn name(&self) -> (r: &str)
        ensures
            r@ == self@.name,
    {
        self.cache_name.as_str()
    }

    fn notify(&mut self, notice: Option<CacheNotice>)
        ensures
            final(self).cache == old(self).cache,
            final(self).values == old(self).values,
            final(self).cache_name == old(self).cache_name,
            final(self).stats == old(self).stats,
            final(self).notices@ == old(self)@.with_notice(notice),
    {
        match notice {
            Some(n) => {
                self.notices.push(n);
            },
            None => {},
        }
    }

    /// Pushes a key-value pair into the cache.
    ///
    /// The answer is `None` if the key was already in the cache (an update) or if the cache had
    /// space, and the entry that was evicted to make space otherwise.
    pub fn push(&mut self, key: u64, value: V) -> (r: Option<(u64, V)>)
        requires
            old(self).wf(),
            has_key(old(self)@.entries, key) ==> old(self)@.stats.updates < usize::MAX,
            !has_key(old(self)@.entries, key) ==> old(self)@.stats.inserts < usize::MAX,
        ensures
            final(self).wf(),
            final(self)@ == old(self)@.after_push(key, value),
            r == old(self)@.push_result(key),
            final(self)@.entries.last() == (key, value),
            others(final(self)@.entries, key) == (if r is Some {
                old(self)@.entries.drop_first()
            } else {
                others(old(self)@.entries, key)
            }),
    {
        let ghost before = *self;
        let ghost pairs = lru_entries(self.cache);
        let slot = self.values.next_slot();
        let capacity = lru_capacity(&self.cache);
        proof {
            lemma_resolved_key(pairs, self.values@, key);
            lemma_resolved_pushed(pairs, self.values@, lru_cap(self.cache), key, slot, value);
            lemma_pushed(before@.entries, before@.cap, key, value);
            lemma_push_order(before@, key, value);
        }
        let out = lru_push(&mut self.cache, key, slot);
        self.values.put(value);
        match out {
            Some((old_key, old_slot)) => {
                let old_value = self.values.take(old_slot);
                if old_key == key {
                    // The key was already in the cache, so nothing was evicted.
                    proof {
                        if !has_key(pairs, key) {
                            assert(pairs[0].0 == key);
                            assert(false);
                        }
                    }
                    self.stats.updates = self.stats.updates + 1;
                    assert(self@ =~= before@.after_push(key, value));
                    None
                } else {
                    assert(!has_key(pairs, key));
                    let notice = self.stats.record_insert(true, capacity);
                    self.notify(notice);
                    assert(self@ =~= before@.after_push(key, value));
                    Some((old_key, old_value))
                }
            },
            None => {
                let notice = self.stats.record_insert(false, capacity);
                self.notify(notice);
                assert(self@ =~= before@.after_push(key, value));
                None
            },
        }
    }

    /// The value of `key`, and whether it was made for this call. Where the cache has the value,
    /// `f` is not called; where it has none, the value that `f` makes is put in first. The entry
    /// is then the most recently used one.
    pub fn find_or_insert<F: FnOnce() -> V>(&mut self, key: u64, f: F) -> (r: (&V, bool))
        requires
            old(self).wf(),
            !has_key(old(self)@.entries, key) ==> call_requires(f, ()),
            has_key(old(self)@.entries, key) ==> old(self)@.stats.hits < usize::MAX,
            !has_key(old(self)@.entries, key) ==> old(self)@.stats.misses < usize::MAX
                && old(self)@.stats.inserts < usize::MAX,
        ensures
            final(self).wf(),
            final(self)@ == old(self)@.after_get_or_insert(key, *r.0),
            r.1 == !has_key(old(self)@.entries, key),
            final(self)@.entries.len() > 0,
            final(self)@.entries.last() == (key, *r.0),
            others(final(self)@.entries, key) == (if r.1 && old(self)@.entries.len()
                == old(self)@.cap {
                old(self)@.entries.drop_first()
            } else {
                others(old(self)@.entries, key)
            }),
            if has_key(old(self)@.entries, key) {
                *r.0 == value_of(old(self)@.entries, key)
            } else {
                call_ensures(f, (), *r.0)
            },
    {
        let ghost before = *self;
        let ghost pairs = lru_entries(self.cache);
        let slot = self.values.next_slot();
        let capacity = lru_capacity(&self.cache);
        let full = lru_len(&self.cache) == capacity;
        let victim = if full {
            lru_peek(&self.cache)
        } else {
            None
        };
        let mut fresh: Option<V> = None;
        proof {
            lemma_resolved_key(pairs, before.values@, key);
        }
        let used = lru_get_or_insert(&mut self.cache, key, slot, f, &mut fresh);
        let inserted = fresh.is_some();
        match fresh {
            Some(value) => {
                proof {
                    lemma_resolved_pushed(
                        pairs,
                        before.values@,
                        lru_cap(before.cache),
                        key,
                        slot,
                        value,
                    );
                    lemma_pushed(before@.entries, before@.cap, key, value);
                }
                self.values.put(value);
                match victim {
                    Some((_, old_slot)) => {
                        let _ = self.values.take(old_slot);
                    },
                    None => {},
                }
                self.stats.misses = self.stats.misses + 1;
                let notice = self.stats.record_insert(full, capacity);
                self.notify(notice);
                assert(self@ =~= before@.after_get_or_insert(key, value));
            },
            None => {
                proof {
                    lemma_resolved_touched(pairs, before.values@, key);
                    lemma_touched(before@.entries, key);
                }
                self.stats.hits = self.stats.hits + 1;
                assert(self@ =~= before@.after_get(key));
            },
        }
        let value = self.values.get(used);
        proof {
            lemma_get_or_insert_order(before@, key, *value);
            lemma_found(before@.entries, key);
            if has_key(before@.entries, key) {
                assert(before@.entries[position(before@.entries, key)].0 == key);
            }
        }
        (value, inserted)
    }

    /// The value of `key`. Where the cache has it, `f` is not called; where it has none, the value
    /// that `f` makes is put in first. The entry is then the most recently used one.
    pub fn get_or_insert<F: FnOnce() -> V>(&mut self, key: u64, f: F) -> (value: &V)
        requires
            old(self).wf(),
            !has_key(old(self)@.entries, key) ==> call_requires(f, ()),
            has_key(old(self)@.entries, key) ==> old(self)@.stats.hits < usize::MAX,
            !has_key(old(self)@.entries, key) ==> old(self)@.stats.misses < usize::MAX
                && old(self)@.stats.inserts < usize::MAX,
        ensures
            final(self).wf(),
            final(self)@ == old(self)@.after_get_or_insert(key, *value),
            if has_key(old(self)@.entries, key) {
                *value == value_of(old(self)@.entries, key)
            } else {
                call_ensures(f, (), *value)
            },
    {
        self.find_or_insert(key, f).0
    }

    /// The value of `key`, which becomes the most recently used one.
    pub fn get(&mut self, key: &u64) -> (r: Option<&V>)
        requires
            old(self).wf(),
            has_key(old(self)@.entries, *key) ==> old(self)@.stats.hits < usize::MAX,
            !has_key(old(self)@.entries, *key) ==> old(self)@.stats.misses < usize::MAX,
        ensures
            final(self).wf(),
            final(self)@ == old(self)@.after_get(*key),
            if has_key(old(self)@.entries, *key) {
                r matches Some(value) && *value == value_of(old(self)@.entries, *key)
            } else {
                r is None
            },
    {
        let ghost before = *self;
        proof {
            lemma_resolved_key(lru_entries(self.cache), self.values@, *key);
            lemma_resolved_touched(lru_entries(self.cache), self.values@, *key);
            lemma_touched(before@.entries, *key);
        }
        match lru_get(&mut self.cache, *key) {
            Some(slot) => {
                self.stats.hits = self.stats.hits + 1;
                assert(self@ =~= before@.after_get(*key));
                Some(self.values.get(slot))
            },
            None => {
                self.stats.misses = self.stats.misses + 1;
                assert(self@ =~= before@.after_get(*key));
                None
            },
        }
    }

    pub fn stats(&self) -> (r: &CacheStats)
        ensures
            *r == self@.stats,
    {
        &self.stats
    }

    /// The notices since this was last asked, oldest first.
    pub fn take_notices(&mut self) -> (r: Vec<CacheNotice>)
        requires
            old(self).wf(),
        ensures
            final(self).wf(),
            r@ == old(self)@.notices,
            final(self)@ == (CacheView { notices: Seq::empty(), ..old(self)@ }),
    {
        let ghost before = *self;
        let mut r: Vec<CacheNotice> = Vec::new();
        std::mem::swap(&mut r, &mut self.notices);
        assert(self@ =~= (CacheView { notices: Seq::empty(), ..before@ }));
        r
    }

    /// What the cache holds and may hold, and the statistics.
    pub fn into_parts(self) -> (r: (CacheParts<V>, CacheStats))
        requires
            self.wf(),
        ensures
            r.0.entries@ == self@.entries,
            r.0.capacity == self@.cap,
            r.1 == self@.stats,
    {
        let stats = self.stats;
        let capacity = lru_capacity(&self.cache);
        let ghost all = self@.entries;
        let mut cache = self.cache;
        let mut values = self.values;
        let mut entries: Vec<(u64, V)> = Vec::new();
        let mut left: usize = lru_len(&cache);
        assert(all =~= Seq::<(u64, V)>::empty() + all);
        while left > 0
            invariant
                left == lru_entries(cache).len(),
                values.wf(),
                distinct_keys(lru_entries(cache)),
                linked(lru_entries(cache), values@),
                all == entries@ + resolved(lru_entries(cache), values@),
            decreases left,
        {
            let ghost pairs = lru_entries(cache);
            let ghost rest = resolved(pairs, values@);
            let ghost done = entries@;
            proof {
                lemma_resolved_popped(pairs, values@);
            }
            match lru_pop(&mut cache) {
                Some((key, slot)) => {
                    let value = values.take(slot);
                    entries.push((key, value));
                    left = left - 1;
                    assert(done + rest =~= done.push(rest[0]) + rest.drop_first());
                },
                None => {},
            }
        }
        assert(entries@ =~= all);
        (CacheParts { entries, capacity }, stats)
    }

    /// Removes and returns the least recently used entry.
    pub fn pop_lru(&mut self) -> (r: Option<(u64, V)>)
        requires
            old(self).wf(),
        ensures
            final(self).wf(),
            final(self)@ == old(self)@.after_pop(),
            r == (if old(self)@.entries.len() > 0 {
                Some(old(self)@.entries[0])
            } else {
                None
            }),
    {
        let ghost before = *self;
        match lru_pop(&mut self.cache) {
            Some((key, slot)) => {
                proof {
                    lemma_resolved_popped(lru_entries(before.cache), before.values@);
                    lemma_resolved_key(lru_entries(self.cache), self.values@, key);
                }
                let value = self.values.take(slot);
                self.stats.evictions = self.stats.evictions + 1;
                assert(self@ =~= before@.after_pop());
                assert(distinct_keys(self@.entries)) by {
                    lemma_resolved_key(lru_entries(self.cache), self.values@, key);
                }
                Some((key, value))
            },
            None => {
                assert(self@ =~= before@.after_pop());
                None
            },
        }
    }
}

} // verus!
