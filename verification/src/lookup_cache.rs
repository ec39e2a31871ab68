//! The caches of finished lookups, each kept in an `lru::LruCache` whose
//! values are the candidates that a lookup returned: the final cache keys
//! them by the input, the mode flags and the cache epoch; the short cache
//! keys the lookups of short keys by the key, the mode flags, the user
//! clock and the cache epoch.
use vstd::prelude::*;
use std::num::NonZeroUsize;
use lru::LruCache;
use crate::cache::{FinalLookupCacheKey, ShortLookupCacheKey};
use crate::user_lexicon::strs_view;

verus! {

#[verifier::external_type_specification]
#[verifier::external_body]
#[verifier::reject_recursive_types(K)]
#[verifier::reject_recursive_types(V)]
#[verifier::reject_recursive_types(S)]
pub struct ExLruCache<K, V, S>(LruCache<K, V, S>);

/// A cached lookup as plain values: its key (input, mode flags, cache
/// epoch) and its candidates.
pub type LookupCacheEntry = ((Seq<char>, u32, u64), Seq<Seq<char>>);

/// What a cache of finished lookups holds, most recently used first.
pub uninterp spec fn lookup_lru_entries(c: LruCache<(String, u32, u64), Vec<String>>) -> Seq<LookupCacheEntry>;

/// The most entries a cache of finished lookups holds, as it was made.
pub uninterp spec fn lookup_lru_capacity(c: LruCache<(String, u32, u64), Vec<String>>) -> nat;

/// The value of the entry for `key`, when there is one (the first one).
pub open spec fn lru_value<K, V>(entries: Seq<(K, V)>, key: K) -> Option<V>
    decreases entries.len(),
{
    if entries.len() == 0 {
        None
    } else if entries[0].0 == key {
        Some(entries[0].1)
    } else {
        lru_value(entries.skip(1), key)
    }
}

pub open spec fn other_key<K, V>(key: K) -> spec_fn((K, V)) -> bool {
    |e: (K, V)| e.0 != key
}

/// `entries` without those for `key`.
pub open spec fn lru_without<K, V>(entries: Seq<(K, V)>, key: K) -> Seq<(K, V)> {
    entries.filter(other_key::<K, V>(key))
}

/// `entries` after a read of `key`: a found entry moves to the front.
pub open spec fn lru_touched<K, V>(entries: Seq<(K, V)>, key: K) -> Seq<(K, V)> {
    match lru_value(entries, key) {
        Some(v) => seq![(key, v)] + lru_without(entries, key),
        None => entries,
    }
}

/// `entries` after `value` is stored under `key` in a cache holding at most
/// `capacity` entries: the new entry goes to the front; it replaces the
/// entry for `key`, if any; otherwise, when the cache is full, the least
/// recently used entry (the last) leaves.
pub open spec fn lru_after_put<K, V>(entries: Seq<(K, V)>, key: K, value: V, capacity: nat) -> Seq<(K, V)> {
    if lru_value(entries, key) is Some {
        seq![(key, value)] + lru_without(entries, key)
    } else if entries.len() == capacity {
        seq![(key, value)] + entries.drop_last()
    } else {
        seq![(key, value)] + entries
    }
}

pub open spec fn lru_keys_unique<K, V>(entries: Seq<(K, V)>) -> bool {
    forall|i: int, j: int| 0 <= i < j < entries.len() ==> (#[trigger] entries[i]).0 != (#[trigger] entries[j]).0
}

/// The key of a cached lookup as plain values.
pub open spec fn lookup_key_view(k: (String, u32, u64)) -> (Seq<char>, u32, u64) {
    (k.0@, k.1, k.2)
}

pub open spec fn final_key_view(k: FinalLookupCacheKey) -> (Seq<char>, u32, u64) {
    (k.input@, k.mode_flags, k.cache_epoch)
}

/// `LruCache::new`: an empty cache that holds at most `capacity` entries.
#[verifier::external_body]
fn lookup_lru_new(capacity: usize) -> (r: LruCache<(String, u32, u64), Vec<String>>)
    requires
        capacity > 0,
        capacity <= MAX_LOOKUP_CACHE_CAPACITY,
    ensures
        lookup_lru_entries(r) == Seq::<LookupCacheEntry>::empty(),
        lookup_lru_capacity(r) == capacity as nat,
{
    LruCache::new(NonZeroUsize::new(capacity).unwrap())
}

/// `LruCache::get`: a copy of the candidates stored under `key`, when
/// there are; a found entry becomes the most recently used.
#[verifier::external_body]
fn lookup_lru_get(c: &mut LruCache<(String, u32, u64), Vec<String>>, key: &(String, u32, u64)) -> (r: Option<
    Vec<String>,
>)
    ensures
        lookup_lru_capacity(*final(c)) == lookup_lru_capacity(*old(c)),
        lookup_lru_entries(*final(c)) == lru_touched(lookup_lru_entries(*old(c)), lookup_key_view(*key)),
        match r {
            Some(v) => lru_value(lookup_lru_entries(*old(c)), lookup_key_view(*key)) == Some(strs_view(v@)),
            None => lru_value(lookup_lru_entries(*old(c)), lookup_key_view(*key)) is None,
        },
{
    c.get(key).cloned()
}

/// `LruCache::put`: stores `value` under `key` as the most recently used
/// entry, in place of the entry for `key` if there is one; otherwise, when
/// the cache is full, its least recently used entry leaves.
#[verifier::external_body]
fn lookup_lru_put(c: &mut LruCache<(String, u32, u64), Vec<String>>, key: (String, u32, u64), value: Vec<String>)
    ensures
        lookup_lru_capacity(*final(c)) == lookup_lru_capacity(*old(c)),
        lookup_lru_entries(*final(c)) == lru_after_put(
            lookup_lru_entries(*old(c)),
            lookup_key_view(key),
            strs_view(value@),
            lookup_lru_capacity(*old(c)),
        ),
{
    c.put(key, value);
}

/// `LruCache::clear`: the cache holds nothing afterwards.
#[verifier::external_body]
fn lookup_lru_clear(c: &mut LruCache<(String, u32, u64), Vec<String>>)
    ensures
        lookup_lru_capacity(*final(c)) == lookup_lru_capacity(*old(c)),
        lookup_lru_entries(*final(c)) == Seq::<LookupCacheEntry>::empty(),
{
    c.clear();
}

/// A cached short lookup as plain values: its key (compact key, mode
/// flags, user clock, cache epoch) and its candidates.
pub type ShortCacheEntry = ((Seq<char>, u32, u64, u64), Seq<Seq<char>>);

/// What a cache of short lookups holds, most recently used first.
pub uninterp spec fn short_lru_entries(c: LruCache<(String, u32, u64, u64), Vec<String>>) -> Seq<ShortCacheEntry>;

/// The most entries a cache of short lookups holds, as it was made.
pub uninterp spec fn short_lru_capacity(c: LruCache<(String, u32, u64, u64), Vec<String>>) -> nat;

pub open spec fn short_lru_key_view(k: (String, u32, u64, u64)) -> (Seq<char>, u32, u64, u64) {
    (k.0@, k.1, k.2, k.3)
}

pub open spec fn short_key_view(k: ShortLookupCacheKey) -> (Seq<char>, u32, u64, u64) {
    (k.input@, k.mode_flags, k.user_clock, k.cache_epoch)
}

/// `LruCache::new`: an empty cache that holds at most `capacity` entries.
#[verifier::external_body]
fn short_lru_new(capacity: usize) -> (r: LruCache<(String, u32, u64, u64), Vec<String>>)
    requires
        capacity > 0,
        capacity <= MAX_LOOKUP_CACHE_CAPACITY,
    ensures
        short_lru_entries(r) == Seq::<ShortCacheEntry>::empty(),
        short_lru_capacity(r) == capacity as nat,
{
    LruCache::new(NonZeroUsize::new(capacity).unwrap())
}

/// `LruCache::get`: a copy of the candidates stored under `key`, when
/// there are; a found entry becomes the most recently used.
#[verifier::external_body]
fn short_lru_get(c: &mut LruCache<(String, u32, u64, u64), Vec<String>>, key: &(String, u32, u64, u64)) -> (r:
    Option<Vec<String>>)
    ensures
        short_lru_capacity(*final(c)) == short_lru_capacity(*old(c)),
        short_lru_entries(*final(c)) == lru_touched(short_lru_entries(*old(c)), short_lru_key_view(*key)),
        match r {
            Some(v) => lru_value(short_lru_entries(*old(c)), short_lru_key_view(*key)) == Some(strs_view(v@)),
            None => lru_value(short_lru_entries(*old(c)), short_lru_key_view(*key)) is None,
        },
{
    c.get(key).cloned()
}

/// `LruCache::put`: stores `value` under `key` as the most recently used
/// entry, in place of the entry for `key` if there is one; otherwise, when
/// the cache is full, its least recently used entry leaves.
#[verifier::external_body]
fn short_lru_put(c: &mut LruCache<(String, u32, u64, u64), Vec<String>>, key: (String, u32, u64, u64), value: Vec<
    String,
>)
    ensures
        short_lru_capacity(*final(c)) == short_lru_capacity(*old(c)),
        short_lru_entries(*final(c)) == lru_after_put(
            short_lru_entries(*old(c)),
            short_lru_key_view(key),
            strs_view(value@),
            short_lru_capacity(*old(c)),
        ),
{
    c.put(key, value);
}

/// `LruCache::clear`: the cache holds nothing afterwards.
#[verifier::external_body]
fn short_lru_clear(c: &mut LruCache<(String, u32, u64, u64), Vec<String>>)
    ensures
        short_lru_capacity(*final(c)) == short_lru_capacity(*old(c)),
        short_lru_entries(*final(c)) == Seq::<ShortCacheEntry>::empty(),
{
    c.clear();
}

/// A found value belongs to an entry of the cache.
pub proof fn lemma_lru_value_in<K, V>(entries: Seq<(K, V)>, key: K)
    ensures
        match lru_value(entries, key) {
            Some(v) => entries.contains((key, v)),
            None => forall|i: int| 0 <= i < entries.len() ==> (#[trigger] entries[i]).0 != key,
        },
    decreases entries.len(),
{
    if entries.len() > 0 {
        if entries[0].0 == key {
            assert(entries[0] == (key, entries[0].1));
        } else {
            let rest = entries.skip(1);
            lemma_lru_value_in(rest, key);
            match lru_value(rest, key) {
                Some(v) => {
                    let j = choose|j: int| 0 <= j < rest.len() && rest[j] == (key, v);
                    assert(entries[j + 1] == (key, v));
                },
                None => {
                    assert forall|i: int| 0 <= i < entries.len() implies (#[trigger] entries[i]).0 != key by {
                        if i > 0 {
                            assert(entries[i] == rest[i - 1]);
                        }
                    }
                },
            }
        }
    }
}

proof fn lemma_without_keys<K, V>(entries: Seq<(K, V)>, key: K)
    ensures
        forall|e: (K, V)| #[trigger] lru_without(entries, key).contains(e) ==> entries.contains(e) && e.0 != key,
        lru_keys_unique(entries) ==> lru_keys_unique(lru_without(entries, key)),
        lru_without(entries, key).len() <= entries.len(),
    decreases entries.len(),
{
    let f = other_key::<K, V>(key);
    assert forall|e: (K, V)| #[trigger] lru_without(entries, key).contains(e) implies entries.contains(e)
        && e.0 != key by {
        entries.lemma_filter_contains_rev(f, e);
        let w = entries.filter(f);
        let i = choose|i: int| 0 <= i < w.len() && w[i] == e;
        entries.lemma_filter_pred(f, i);
    }
    entries.lemma_filter_len(f);
    if entries.len() > 0 {
        let d = entries.drop_last();
        lemma_without_keys(d, key);
        assert(entries =~= d.push(entries.last()));
        d.lemma_filter_push(entries.last(), f);
        if lru_keys_unique(entries) {
            assert(lru_keys_unique(d)) by {
                assert forall|i: int, j: int| 0 <= i < j < d.len() implies (#[trigger] d[i]).0 != (
                #[trigger] d[j]).0 by {
                    assert(d[i] == entries[i] && d[j] == entries[j]);
                }
            }
            let wd = d.filter(f);
            if f(entries.last()) {
                let w = wd.push(entries.last());
                assert forall|i: int, j: int| 0 <= i < j < w.len() implies (#[trigger] w[i]).0 != (
                #[trigger] w[j]).0 by {
                    if j == w.len() - 1 {
                        assert(w[j] == entries.last());
                        assert(wd.contains(w[i]));
                        assert(d.contains(w[i]));
                        let a = choose|a: int| 0 <= a < d.len() && d[a] == w[i];
                        assert(entries[a] == d[a]);
                        assert(entries[entries.len() - 1] == entries.last());
                    } else {
                        assert(w[i] == wd[i] && w[j] == wd[j]);
                    }
                }
            }
        }
    }
}

proof fn lemma_drop_last_keys<K, V>(entries: Seq<(K, V)>)
    requires
        entries.len() > 0,
    ensures
        forall|e: (K, V)| #[trigger] entries.drop_last().contains(e) ==> entries.contains(e),
        lru_keys_unique(entries) ==> lru_keys_unique(entries.drop_last()),
{
    let d = entries.drop_last();
    assert forall|e: (K, V)| #[trigger] d.contains(e) implies entries.contains(e) by {
        let i = choose|i: int| 0 <= i < d.len() && d[i] == e;
        assert(entries[i] == e);
    }
    if lru_keys_unique(entries) {
        assert forall|i: int, j: int| 0 <= i < j < d.len() implies (#[trigger] d[i]).0 != (#[trigger] d[j]).0 by {
            assert(d[i] == entries[i] && d[j] == entries[j]);
        }
    }
}

proof fn lemma_front_keys<K, V>(key: K, value: V, rest: Seq<(K, V)>)
    requires
        lru_keys_unique(rest),
        forall|i: int| 0 <= i < rest.len() ==> (#[trigger] rest[i]).0 != key,
    ensures
        lru_keys_unique(seq![(key, value)] + rest),
        forall|e: (K, V)| #[trigger] (seq![(key, value)] + rest).contains(e) ==> e == (key, value) || rest.contains(e),
{
    let s = seq![(key, value)] + rest;
    assert forall|i: int, j: int| 0 <= i < j < s.len() implies (#[trigger] s[i]).0 != (#[trigger] s[j]).0 by {
        assert(s[j] == rest[j - 1]);
        if i > 0 {
            assert(s[i] == rest[i - 1]);
        }
    }
    assert forall|e: (K, V)| #[trigger] s.contains(e) implies e == (key, value) || rest.contains(e) by {
        let i = choose|i: int| 0 <= i < s.len() && s[i] == e;
        if i > 0 {
            assert(rest[i - 1] == e);
        }
    }
}

/// A read keeps the keys unique and the number of entries, and adds no
/// entry.
pub proof fn lemma_touched_keeps<K, V>(entries: Seq<(K, V)>, key: K)
    requires
        lru_keys_unique(entries),
    ensures
        lru_keys_unique(lru_touched(entries, key)),
        lru_touched(entries, key).len() <= entries.len(),
        forall|e: (K, V)| #[trigger] lru_touched(entries, key).contains(e) ==> entries.contains(e),
{
    lemma_lru_value_in(entries, key);
    lemma_without_keys(entries, key);
    match lru_value(entries, key) {
        Some(v) => {
            let w = lru_without(entries, key);
            assert forall|i: int| 0 <= i < w.len() implies (#[trigger] w[i]).0 != key by {
                assert(w.contains(w[i]));
            }
            lemma_front_keys(key, v, w);
            let j = choose|j: int| 0 <= j < entries.len() && entries[j] == (key, v);
            let g = other_key::<K, V>(key);
            assert(!g(entries[j]));
            assert(w.len() < entries.len()) by {
                lemma_filter_len_lt(entries, g, j);
            }
        },
        None => {},
    }
}

proof fn lemma_filter_len_lt<A>(s: Seq<A>, f: spec_fn(A) -> bool, j: int)
    requires
        0 <= j < s.len(),
        !f(s[j]),
    ensures
        s.filter(f).len() < s.len(),
    decreases s.len(),
{
    let d = s.drop_last();
    assert(s =~= d.push(s.last()));
    d.lemma_filter_push(s.last(), f);
    d.lemma_filter_len(f);
    if j < s.len() - 1 {
        assert(d[j] == s[j]);
        lemma_filter_len_lt(d, f, j);
    }
}

/// A write keeps the keys unique and the cache within its capacity; the
/// only entry it can add is the one written.
pub proof fn lemma_after_put_keeps<K, V>(entries: Seq<(K, V)>, key: K, value: V, capacity: nat)
    requires
        lru_keys_unique(entries),
        entries.len() <= capacity,
        capacity >= 1,
    ensures
        lru_keys_unique(lru_after_put(entries, key, value, capacity)),
        lru_after_put(entries, key, value, capacity).len() <= capacity,
        forall|e: (K, V)| #[trigger] lru_after_put(entries, key, value, capacity).contains(e) ==> e == (key, value)
            || entries.contains(e),
        lru_value(lru_after_put(entries, key, value, capacity), key) == Some(value),
{
    lemma_lru_value_in(entries, key);
    let r = lru_after_put(entries, key, value, capacity);
    assert(r[0] == (key, value));
    match lru_value(entries, key) {
        Some(v) => {
            lemma_without_keys(entries, key);
            let w = lru_without(entries, key);
            assert forall|i: int| 0 <= i < w.len() implies (#[trigger] w[i]).0 != key by {
                assert(w.contains(w[i]));
            }
            lemma_front_keys(key, value, w);
            let j = choose|j: int| 0 <= j < entries.len() && entries[j] == (key, v);
            lemma_filter_len_lt(entries, other_key::<K, V>(key), j);
        },
        None => {
            if entries.len() == capacity {
                lemma_drop_last_keys(entries);
                let d = entries.drop_last();
                assert forall|i: int| 0 <= i < d.len() implies (#[trigger] d[i]).0 != key by {
                    assert(d[i] == entries[i]);
                }
                lemma_front_keys(key, value, d);
            } else {
                lemma_front_keys(key, value, entries);
            }
        },
    }
}

/// A read finds, afterwards, what it found.
pub proof fn lemma_lru_value_after_touch<K, V>(entries: Seq<(K, V)>, key: K)
    ensures
        lru_value(lru_touched(entries, key), key) == lru_value(entries, key),
{
    let t = lru_touched(entries, key);
    match lru_value(entries, key) {
        Some(v) => {
            assert(t[0] == (key, v));
        },
        None => {},
    }
}

/// What is stored is found again, until something else displaces it.
pub proof fn lemma_put_then_value<K, V>(entries: Seq<(K, V)>, key: K, value: V, capacity: nat)
    ensures
        lru_value(lru_after_put(entries, key, value, capacity), key) == Some(value),
{
    let r = lru_after_put(entries, key, value, capacity);
    assert(r[0] == (key, value));
}

pub(crate) fn clone_strings(v: &Vec<String>) -> (r: Vec<String>)
    ensures
        strs_view(r@) == strs_view(v@),
{
    let mut out: Vec<String> = Vec::new();
    let mut i: usize = 0;
    while i < v.len()
        invariant
            i <= v.len(),
            strs_view(out@) =~= strs_view(v@).take(i as int),
        decreases v.len() - i,
    {
        out.push(v[i].clone());
        assert(strs_view(v@).take(i + 1) =~= strs_view(v@).take(i as int).push(v@[i as int]@));
        i += 1;
    }
    assert(strs_view(v@).take(v.len() as int) =~= strs_view(v@));
    out
}

/// The most entries a cache of finished lookups may be made with: the
/// table that `LruCache::new` sets aside for them must fit in memory
/// (`HashMap::with_capacity` panics when its table would exceed `isize::MAX`
/// bytes); this bound leaves room for the entries' pointers and control
/// bytes.
pub const MAX_LOOKUP_CACHE_CAPACITY: usize = usize::MAX / 128;

/// The finished lookups, most recently used first, each under its input,
/// mode flags and cache epoch.
pub struct FinalLookupCache {
    map: LruCache<(String, u32, u64), Vec<String>>,
}

impl FinalLookupCache {
    /// The cached lookups, most recently used first.
    pub closed spec fn entries(&self) -> Seq<LookupCacheEntry> {
        lookup_lru_entries(self.map)
    }

    /// The most entries the cache holds.
    pub closed spec fn capacity(&self) -> nat {
        lookup_lru_capacity(self.map)
    }

    /// Each key once, and no more entries than the capacity, which is at
    /// least one.
    pub open spec fn wf(&self) -> bool {
        &&& lru_keys_unique(self.entries())
        &&& self.entries().len() <= self.capacity()
        &&& self.capacity() >= 1
    }

    /// An empty cache for at most `capacity` lookups (at least one).
    pub fn new(capacity: usize) -> (r: Self)
        requires
            capacity <= MAX_LOOKUP_CACHE_CAPACITY,
        ensures
            r.wf(),
            r.entries().len() == 0,
            r.capacity() == if capacity == 0 {
                1
            } else {
                capacity as nat
            },
    {
        let cap = if capacity == 0 {
            1
        } else {
            capacity
        };
        FinalLookupCache { map: lookup_lru_new(cap) }
    }

    /// Forgets every cached lookup.
    pub fn clear(&mut self)
        requires
            old(self).wf(),
        ensures
            final(self).wf(),
            final(self).entries().len() == 0,
            final(self).capacity() == old(self).capacity(),
    {
        lookup_lru_clear(&mut self.map);
    }

    /// The candidates cached under `key`, when there are; a found lookup
    /// becomes the most recently used.
    pub fn get(&mut self, key: &FinalLookupCacheKey) -> (r: Option<Vec<String>>)
        requires
            old(self).wf(),
        ensures
            final(self).wf(),
            final(self).capacity() == old(self).capacity(),
            final(self).entries() == lru_touched(old(self).entries(), final_key_view(*key)),
            match r {
                Some(v) => lru_value(old(self).entries(), final_key_view(*key)) == Some(strs_view(v@)),
                None => lru_value(old(self).entries(), final_key_view(*key)) is None,
            },
            forall|e: LookupCacheEntry| #[trigger] final(self).entries().contains(e) ==> old(self).entries().contains(
                e,
            ),
            r matches Some(v) ==> old(self).entries().contains((final_key_view(*key), strs_view(v@))),
    {
        proof {
            lemma_touched_keeps(self.entries(), final_key_view(*key));
            lemma_lru_value_in(self.entries(), final_key_view(*key));
        }
        let k = (key.input.clone(), key.mode_flags, key.cache_epoch);
        assert(lookup_key_view(k) == final_key_view(*key));
        lookup_lru_get(&mut self.map, &k)
    }

    /// Caches `candidates` under `key` as the most recently used lookup; an
    /// empty list is not cached.
    pub fn insert(&mut self, key: FinalLookupCacheKey, candidates: Vec<String>)
        requires
            old(self).wf(),
        ensures
            final(self).wf(),
            final(self).capacity() == old(self).capacity(),
            final(self).entries() == if candidates.len() == 0 {
                old(self).entries()
            } else {
                lru_after_put(old(self).entries(), final_key_view(key), strs_view(candidates@), old(self).capacity())
            },
            forall|e: LookupCacheEntry| #[trigger] final(self).entries().contains(e) ==> e == (
                final_key_view(key),
                strs_view(candidates@),
            ) || old(self).entries().contains(e),
            candidates.len() > 0 ==> lru_value(final(self).entries(), final_key_view(key)) == Some(
                strs_view(candidates@),
            ),
    {
        if candidates.len() == 0 {
            return;
        }
        proof {
            lemma_after_put_keeps(self.entries(), final_key_view(key), strs_view(candidates@), self.capacity());
        }
        let k = (key.input, key.mode_flags, key.cache_epoch);
        lookup_lru_put(&mut self.map, k, candidates);
    }
}

/// The lookups of short keys, most recently used first, each under its
/// compact key, mode flags, user clock and cache epoch.
pub struct ShortLookupCache {
    map: LruCache<(String, u32, u64, u64), Vec<String>>,
}

impl ShortLookupCache {
    /// The cached lookups, most recently used first.
    pub closed spec fn entries(&self) -> Seq<ShortCacheEntry> {
        short_lru_entries(self.map)
    }

    /// The most entries the cache holds.
    pub closed spec fn capacity(&self) -> nat {
        short_lru_capacity(self.map)
    }

    /// Each key once, and no more entries than the capacity, which is at
    /// least one.
    pub open spec fn wf(&self) -> bool {
        &&& lru_keys_unique(self.entries())
        &&& self.entries().len() <= self.capacity()
        &&& self.capacity() >= 1
    }

    /// An empty cache for at most `capacity` lookups (at least one).
    pub fn new(capacity: usize) -> (r: Self)
        requires
            capacity <= MAX_LOOKUP_CACHE_CAPACITY,
        ensures
            r.wf(),
            r.entries().len() == 0,
            r.capacity() == if capacity == 0 {
                1
            } else {
                capacity as nat
            },
    {
        let cap = if capacity == 0 {
            1
        } else {
            capacity
        };
        ShortLookupCache { map: short_lru_new(cap) }
    }

    /// Forgets every cached lookup.
    pub fn clear(&mut self)
        requires
            old(self).wf(),
        ensures
            final(self).wf(),
            final(self).entries().len() == 0,
            final(self).capacity() == old(self).capacity(),
    {
        short_lru_clear(&mut self.map);
    }

    /// The candidates cached under `key`, when there are; a found lookup
    /// becomes the most recently used.
    pub fn get(&mut self, key: &ShortLookupCacheKey) -> (r: Option<Vec<String>>)
        requires
            old(self).wf(),
        ensures
            final(self).wf(),
            final(self).capacity() == old(self).capacity(),
            final(self).entries() == lru_touched(old(self).entries(), short_key_view(*key)),
            match r {
                Some(v) => lru_value(old(self).entries(), short_key_view(*key)) == Some(strs_view(v@)),
                None => lru_value(old(self).entries(), short_key_view(*key)) is None,
            },
            forall|e: ShortCacheEntry| #[trigger] final(self).entries().contains(e) ==> old(self).entries().contains(
                e,
            ),
            r matches Some(v) ==> old(self).entries().contains((short_key_view(*key), strs_view(v@))),
    {
        proof {
            lemma_touched_keeps(self.entries(), short_key_view(*key));
            lemma_lru_value_in(self.entries(), short_key_view(*key));
        }
        let k = (key.input.clone(), key.mode_flags, key.user_clock, key.cache_epoch);
        assert(short_lru_key_view(k) == short_key_view(*key));
        short_lru_get(&mut self.map, &k)
    }

    /// Caches `candidates` under `key` as the most recently used lookup; an
    /// empty list is not cached.
    pub fn insert(&mut self, key: ShortLookupCacheKey, candidates: Vec<String>)
        requires
            old(self).wf(),
        ensures
            final(self).wf(),
            final(self).capacity() == old(self).capacity(),
            final(self).entries() == if candidates.len() == 0 {
                old(self).entries()
            } else {
                lru_after_put(old(self).entries(), short_key_view(key), strs_view(candidates@), old(self).capacity())
            },
            forall|e: ShortCacheEntry| #[trigger] final(self).entries().contains(e) ==> e == (
                short_key_view(key),
                strs_view(candidates@),
            ) || old(self).entries().contains(e),
            candidates.len() > 0 ==> lru_value(final(self).entries(), short_key_view(key)) == Some(
                strs_view(candidates@),
            ),
    {
        if candidates.len() == 0 {
            return;
        }
        proof {
            lemma_after_put_keeps(self.entries(), short_key_view(key), strs_view(candidates@), self.capacity());
        }
        let k = (key.input, key.mode_flags, key.user_clock, key.cache_epoch);
        short_lru_put(&mut self.map, k, candidates);
    }
}

} // verus!
