//! Bounded caches that evict the least recently used entry, kept by the
//! `cached` crate. Nothing is proved of that crate here; the contracts of the
//! functions that call it are believed.

use cached::{Cached, SizedCache};
use vstd::prelude::*;
use crate::announce::{announce_views, AnnounceAccount, AnnounceView};
use crate::keys::PeerId;

verus! {

/// The cache of the `cached` crate. Its fields are not looked into.
#[verifier::external_type_specification]
#[verifier::external_body]
#[verifier::reject_recursive_types(K)]
#[verifier::reject_recursive_types(V)]
pub struct ExSizedCache<K, V>(SizedCache<K, V>);

/// Whether `entries` hold an entry for `key`.
pub open spec fn lru_has<K, V>(entries: Seq<(K, V)>, key: K) -> bool {
    exists|i: int| 0 <= i < entries.len() && (#[trigger] entries[i]).0 == key
}

/// The place of the entry for `key`.
pub open spec fn lru_place<K, V>(entries: Seq<(K, V)>, key: K) -> int {
    choose|i: int| 0 <= i < entries.len() && (#[trigger] entries[i]).0 == key
}

/// The value under `key`, if `entries` hold one.
pub open spec fn lru_value<K, V>(entries: Seq<(K, V)>, key: K) -> Option<V> {
    if lru_has(entries, key) {
        Some(entries[lru_place(entries, key)].1)
    } else {
        None
    }
}

/// No two entries have the same key.
pub open spec fn lru_distinct<K, V>(entries: Seq<(K, V)>) -> bool {
    forall|i: int, j: int|
        0 <= i < j < entries.len() ==> (#[trigger] entries[i]).0 != (#[trigger] entries[j]).0
}

/// The entries, kept from the most to the least recently used, after a
/// lookup of `key`: an entry found has moved to the front.
pub open spec fn lru_touched<K, V>(entries: Seq<(K, V)>, key: K) -> Seq<(K, V)> {
    if lru_has(entries, key) {
        let i = lru_place(entries, key);
        seq![entries[i]] + entries.remove(i)
    } else {
        entries
    }
}

/// The entries that stay when a cache of the size `limit` makes room: all
/// but the last where the cache is full.
pub open spec fn lru_room<K, V>(entries: Seq<(K, V)>, limit: usize) -> Seq<(K, V)> {
    if entries.len() >= limit && entries.len() > 0 {
        entries.drop_last()
    } else {
        entries
    }
}

/// The entries after `key` is set to `value`: first a full cache drops its
/// last entry, the least recently used one; then the entry for the key, if
/// there still is one, gets the value where it stands; else the new entry
/// goes to the front.
pub open spec fn lru_put<K, V>(entries: Seq<(K, V)>, limit: usize, key: K, value: V) -> Seq<(K, V)> {
    let kept = lru_room(entries, limit);
    if lru_has(kept, key) {
        kept.update(lru_place(kept, key), (key, value))
    } else {
        seq![(key, value)] + kept
    }
}

/// What the cache of counters holds, from the most to the least recently
/// used entry: keys and their counters.
pub uninterp spec fn counter_entries(cache: SizedCache<Vec<u8>, usize>) -> Seq<(Seq<u8>, usize)>;

/// The size that the cache of counters was made with.
pub uninterp spec fn counter_limit(cache: SizedCache<Vec<u8>, usize>) -> usize;

/// Calls `SizedCache::with_size`, which panics on the size 0. Believed: the
/// new cache is empty and keeps the size.
#[verifier::external_body]
pub(crate) fn counters_with_size(size: usize) -> (cache: SizedCache<Vec<u8>, usize>)
    requires
        size > 0,
    ensures
        counter_entries(cache) == Seq::<(Seq<u8>, usize)>::empty(),
        counter_limit(cache) == size,
{
    SizedCache::with_size(size)
}

/// Calls `Cached::cache_get`. Believed: the counter under the key is
/// returned, its entry moves to the front, and no key occurs twice.
#[verifier::external_body]
pub(crate) fn counters_get(cache: &mut SizedCache<Vec<u8>, usize>, key: &Vec<u8>) -> (answer: Option<
    usize,
>)
    ensures
        answer == lru_value(counter_entries(*old(cache)), key@),
        counter_entries(*final(cache)) == lru_touched(counter_entries(*old(cache)), key@),
        counter_limit(*final(cache)) == counter_limit(*old(cache)),
        lru_distinct(counter_entries(*final(cache))),
{
    cache.cache_get(key).copied()
}

/// Calls `Cached::cache_get_mut`. Believed: where the key has a counter, its
/// entry moves to the front and the counter is handed out to be changed;
/// what is written to it is then the counter of the entry at the front.
/// Else nothing changes.
#[verifier::external_body]
pub(crate) fn counters_get_mut<'a>(cache: &'a mut SizedCache<Vec<u8>, usize>, key: &Vec<u8>) -> (answer:
    Option<&'a mut usize>)
    ensures
        answer.is_some() == lru_has(counter_entries(*old(cache)), key@),
        match answer {
            Some(counter) => Some(*counter) == lru_value(counter_entries(*old(cache)), key@)
                && counter_entries(*final(cache)) == lru_touched(
                counter_entries(*old(cache)),
                key@,
            ).update(0, (key@, *final(counter))),
            None => counter_entries(*final(cache)) == counter_entries(*old(cache)),
        },
        counter_limit(*final(cache)) == counter_limit(*old(cache)),
        lru_distinct(counter_entries(*final(cache))),
{
    cache.cache_get_mut(key)
}

/// Calls `Cached::cache_set`. Believed: a full cache first drops its least
/// recently used entry; then the counter of the key is replaced where the
/// key is still there, else the new entry goes to the front; no key occurs
/// twice.
#[verifier::external_body]
pub(crate) fn counters_set(cache: &mut SizedCache<Vec<u8>, usize>, key: Vec<u8>, value: usize)
    ensures
        counter_entries(*final(cache)) == lru_put(
            counter_entries(*old(cache)),
            counter_limit(*old(cache)),
            key@,
            value,
        ),
        counter_limit(*final(cache)) == counter_limit(*old(cache)),
        lru_distinct(counter_entries(*final(cache))),
{
    cache.cache_set(key, value);
}

/// What the cache of announcements holds, from the most to the least
/// recently used entry: account ids and the announcements of the accounts.
pub uninterp spec fn announce_entries(cache: SizedCache<Vec<u8>, AnnounceAccount>) -> Seq<
    (Seq<u8>, AnnounceView),
>;

/// The size that the cache of announcements was made with.
pub uninterp spec fn announce_limit(cache: SizedCache<Vec<u8>, AnnounceAccount>) -> usize;

/// Calls `SizedCache::with_size`, which panics on the size 0. Believed: the
/// new cache is empty and keeps the size.
#[verifier::external_body]
pub(crate) fn announces_with_size(size: usize) -> (cache: SizedCache<Vec<u8>, AnnounceAccount>)
    requires
        size > 0,
    ensures
        announce_entries(cache) == Seq::<(Seq<u8>, AnnounceView)>::empty(),
        announce_limit(cache) == size,
{
    SizedCache::with_size(size)
}

/// Calls `Cached::cache_get`. Believed: a copy of the announcement under the
/// key is returned, its entry moves to the front, and no key occurs twice.
#[verifier::external_body]
pub(crate) fn announces_get(cache: &mut SizedCache<Vec<u8>, AnnounceAccount>, key: &Vec<u8>) -> (answer:
    Option<AnnounceAccount>)
    ensures
        answer.is_some() == lru_has(announce_entries(*old(cache)), key@),
        answer matches Some(a) ==> Some(a@) == lru_value(announce_entries(*old(cache)), key@),
        announce_entries(*final(cache)) == lru_touched(announce_entries(*old(cache)), key@),
        announce_limit(*final(cache)) == announce_limit(*old(cache)),
        lru_distinct(announce_entries(*final(cache))),
{
    cache.cache_get(key).cloned()
}

/// Calls `Cached::cache_set`. Believed: a full cache first drops its least
/// recently used entry; then the announcement of the key is replaced where
/// the key is still there, else the new entry goes to the front; no key
/// occurs twice.
#[verifier::external_body]
pub(crate) fn announces_set(
    cache: &mut SizedCache<Vec<u8>, AnnounceAccount>,
    key: Vec<u8>,
    value: AnnounceAccount,
)
    ensures
        announce_entries(*final(cache)) == lru_put(
            announce_entries(*old(cache)),
            announce_limit(*old(cache)),
            key@,
            value@,
        ),
        announce_limit(*final(cache)) == announce_limit(*old(cache)),
        lru_distinct(announce_entries(*final(cache))),
{
    cache.cache_set(key, value);
}

/// Calls `Cached::cache_size`. Believed: it is the number of entries.
#[verifier::external_body]
pub(crate) fn announces_size(cache: &SizedCache<Vec<u8>, AnnounceAccount>) -> (size: usize)
    ensures
        size == announce_entries(*cache).len(),
{
    cache.cache_size()
}

/// Calls `SizedCache::value_order`. Believed: copies of the announcements
/// come from the most to the least recently used.
#[verifier::external_body]
pub(crate) fn announces_values(cache: &SizedCache<Vec<u8>, AnnounceAccount>) -> (values: Vec<
    AnnounceAccount,
>)
    ensures
        announce_views(values@) == Seq::new(
            announce_entries(*cache).len(),
            |i: int| announce_entries(*cache)[i].1,
        ),
{
    cache.value_order().cloned().collect()
}

/// Calls `SizedCache::key_order`. Believed: copies of the keys come from the
/// most to the least recently used.
#[verifier::external_body]
pub(crate) fn announces_keys(cache: &SizedCache<Vec<u8>, AnnounceAccount>) -> (keys: Vec<Vec<u8>>)
    ensures
        keys@.len() == announce_entries(*cache).len(),
        forall|i: int| 0 <= i < keys@.len() ==> (#[trigger] keys@[i])@ == announce_entries(*cache)[i].0,
{
    cache.key_order().cloned().collect()
}

/// What a cache of pings or pongs holds, from the most to the least recently
/// used entry: under the nonce, the nonce in full, the peer the ping or pong
/// came from, and how often it has come.
pub uninterp spec fn echo_entries(cache: SizedCache<usize, (u64, PeerId, usize)>) -> Seq<
    (usize, (u64, Seq<u8>, usize)),
>;

/// The size that the cache of pings or pongs was made with.
pub uninterp spec fn echo_limit(cache: SizedCache<usize, (u64, PeerId, usize)>) -> usize;

/// Calls `SizedCache::with_size`, which panics on the size 0. Believed: the
/// new cache is empty and keeps the size.
#[verifier::external_body]
pub(crate) fn echoes_with_size(size: usize) -> (cache: SizedCache<usize, (u64, PeerId, usize)>)
    requires
        size > 0,
    ensures
        echo_entries(cache) == Seq::<(usize, (u64, Seq<u8>, usize))>::empty(),
        echo_limit(cache) == size,
{
    SizedCache::with_size(size)
}

/// Calls `Cached::cache_get`. Believed: the count under the nonce is
/// returned, its entry moves to the front, and no nonce occurs twice.
#[verifier::external_body]
pub(crate) fn echoes_count(cache: &mut SizedCache<usize, (u64, PeerId, usize)>, key: usize) -> (answer:
    Option<usize>)
    ensures
        answer.is_some() == lru_has(echo_entries(*old(cache)), key),
        answer matches Some(n) ==> n == lru_value(echo_entries(*old(cache)), key).unwrap().2,
        echo_entries(*final(cache)) == lru_touched(echo_entries(*old(cache)), key),
        echo_limit(*final(cache)) == echo_limit(*old(cache)),
        lru_distinct(echo_entries(*final(cache))),
{
    cache.cache_get(&key).map(|entry| entry.2)
}

/// Calls `Cached::cache_set`. Believed: a full cache first drops its least
/// recently used entry; then the value under the nonce is replaced where the
/// nonce is still there, else the new entry goes to the front; no nonce
/// occurs twice.
#[verifier::external_body]
pub(crate) fn echoes_set(
    cache: &mut SizedCache<usize, (u64, PeerId, usize)>,
    key: usize,
    value: (u64, PeerId, usize),
)
    ensures
        echo_entries(*final(cache)) == lru_put(
            echo_entries(*old(cache)),
            echo_limit(*old(cache)),
            key,
            (value.0, value.1@, value.2),
        ),
        echo_limit(*final(cache)) == echo_limit(*old(cache)),
        lru_distinct(echo_entries(*final(cache))),
{
    cache.cache_set(key, value);
}

/// Calls `SizedCache::key_order` and `SizedCache::value_order`. Believed:
/// copies of the entries come from the most to the least recently used, and
/// no nonce occurs twice.
#[verifier::external_body]
pub(crate) fn echoes_list(cache: &SizedCache<usize, (u64, PeerId, usize)>) -> (entries: Vec<
    (usize, (u64, PeerId, usize)),
>)
    ensures
        entries@.len() == echo_entries(*cache).len(),
        forall|i: int|
            0 <= i < entries@.len() ==> ((#[trigger] entries@[i]).0, (
                entries@[i].1.0,
                entries@[i].1.1@,
                entries@[i].1.2,
            )) == echo_entries(*cache)[i],
        forall|i: int, j: int|
            0 <= i < j < entries@.len() ==> (#[trigger] entries@[i]).0 != (#[trigger] entries@[j]).0,
{
    cache.key_order().cloned().zip(cache.value_order().cloned()).collect()
}


/// The entries without the entry for `key`.
pub open spec fn lru_without<K, V>(entries: Seq<(K, V)>, key: K) -> Seq<(K, V)> {
    if lru_has(entries, key) {
        entries.remove(lru_place(entries, key))
    } else {
        entries
    }
}

/// What a cache of the times of pings holds, from the most to the least
/// recently used entry: nonces and the times at which the pings were sent.
pub uninterp spec fn sent_entries(cache: SizedCache<usize, u64>) -> Seq<(usize, u64)>;

/// The size that the cache of the times of pings was made with.
pub uninterp spec fn sent_limit(cache: SizedCache<usize, u64>) -> usize;

/// Calls `SizedCache::with_size`, which panics on the size 0. Believed: the
/// new cache is empty and keeps the size.
#[verifier::external_body]
pub(crate) fn sent_with_size(size: usize) -> (cache: SizedCache<usize, u64>)
    requires
        size > 0,
    ensures
        sent_entries(cache) == Seq::<(usize, u64)>::empty(),
        sent_limit(cache) == size,
{
    SizedCache::with_size(size)
}

/// Calls `Cached::cache_set`. Believed: a full cache first drops its least
/// recently used entry; then the time under the nonce is replaced where the
/// nonce is still there, else the new entry goes to the front; no nonce
/// occurs twice.
#[verifier::external_body]
pub(crate) fn sent_set(cache: &mut SizedCache<usize, u64>, key: usize, value: u64)
    ensures
        sent_entries(*final(cache)) == lru_put(
            sent_entries(*old(cache)),
            sent_limit(*old(cache)),
            key,
            value,
        ),
        sent_limit(*final(cache)) == sent_limit(*old(cache)),
        lru_distinct(sent_entries(*final(cache))),
{
    cache.cache_set(key, value);
}

/// Calls `Cached::cache_remove`. Believed: the entry under the nonce leaves
/// and its time is returned; the other entries keep their order; no nonce
/// occurs twice.
#[verifier::external_body]
pub(crate) fn sent_remove(cache: &mut SizedCache<usize, u64>, key: usize) -> (answer: Option<u64>)
    ensures
        answer == lru_value(sent_entries(*old(cache)), key),
        sent_entries(*final(cache)) == lru_without(sent_entries(*old(cache)), key),
        sent_limit(*final(cache)) == sent_limit(*old(cache)),
        lru_distinct(sent_entries(*final(cache))),
{
    cache.cache_remove(&key)
}

/// What the cache of pings without pong holds, from the most to the least
/// recently used entry: under the key of each target the size and the
/// entries of the cache of the times of the pings sent to it.
pub uninterp spec fn waiting_entries(cache: SizedCache<Vec<u8>, SizedCache<usize, u64>>) -> Seq<
    (Seq<u8>, (usize, Seq<(usize, u64)>)),
>;

/// The size that the cache of pings without pong was made with.
pub uninterp spec fn waiting_limit(cache: SizedCache<Vec<u8>, SizedCache<usize, u64>>) -> usize;

/// Calls `SizedCache::with_size`, which panics on the size 0. Believed: the
/// new cache is empty and keeps the size.
#[verifier::external_body]
pub(crate) fn waiting_with_size(size: usize) -> (cache: SizedCache<Vec<u8>, SizedCache<usize, u64>>)
    requires
        size > 0,
    ensures
        waiting_entries(cache) == Seq::<(Seq<u8>, (usize, Seq<(usize, u64)>))>::empty(),
        waiting_limit(cache) == size,
{
    SizedCache::with_size(size)
}

/// Calls `Cached::cache_get_mut`. Believed: where the target has a cache of
/// times, its entry moves to the front and the cache of times is handed out
/// to be changed; what it holds in the end is what the entry at the front
/// holds. Else nothing changes.
#[verifier::external_body]
pub(crate) fn waiting_get_mut<'a>(
    cache: &'a mut SizedCache<Vec<u8>, SizedCache<usize, u64>>,
    key: &Vec<u8>,
) -> (answer: Option<&'a mut SizedCache<usize, u64>>)
    ensures
        answer.is_some() == lru_has(waiting_entries(*old(cache)), key@),
        match answer {
            Some(times) => Some((sent_limit(*times), sent_entries(*times))) == lru_value(
                waiting_entries(*old(cache)),
                key@,
            ) && waiting_entries(*final(cache)) == lru_touched(
                waiting_entries(*old(cache)),
                key@,
            ).update(0, (key@, (sent_limit(*final(times)), sent_entries(*final(times))))),
            None => waiting_entries(*final(cache)) == waiting_entries(*old(cache)),
        },
        waiting_limit(*final(cache)) == waiting_limit(*old(cache)),
        lru_distinct(waiting_entries(*final(cache))),
{
    cache.cache_get_mut(key)
}

/// Calls `Cached::cache_set`. Believed: a full cache first drops its least
/// recently used entry; then the cache of times of the target is replaced
/// where the target is still there, else the new entry goes to the front; no
/// target occurs twice.
#[verifier::external_body]
pub(crate) fn waiting_set(
    cache: &mut SizedCache<Vec<u8>, SizedCache<usize, u64>>,
    key: Vec<u8>,
    value: SizedCache<usize, u64>,
)
    ensures
        waiting_entries(*final(cache)) == lru_put(
            waiting_entries(*old(cache)),
            waiting_limit(*old(cache)),
            key@,
            (sent_limit(value), sent_entries(value)),
        ),
        waiting_limit(*final(cache)) == waiting_limit(*old(cache)),
        lru_distinct(waiting_entries(*final(cache))),
{
    cache.cache_set(key, value);
}

} // verus!
