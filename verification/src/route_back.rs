//! The route-back cache: for the hash of a message, the peer it came from, so
//! that the reply can go back the same way.

use vstd::prelude::*;
use crate::bytes::{le_value, read_le_bytes};
use crate::keys::{CryptoHash, PeerId};

verus! {

/// An entry of the cache as a value: when it was inserted, the hash of the
/// message and the peer the message came from.
pub struct RouteBack {
    pub time: u64,
    pub hash: Seq<u8>,
    pub peer: Seq<u8>,
}

/// Whether an entry inserted at `time` is older at `now` than `timeout`.
pub open spec fn expired(time: u64, now: u64, timeout: u64) -> bool {
    now > time && now - time > timeout
}

/// How many entries at the front of `entries` are expired.
pub open spec fn expired_count(entries: Seq<RouteBack>, now: u64, timeout: u64) -> nat
    decreases entries.len(),
{
    if entries.len() == 0 {
        0
    } else if expired(entries[0].time, now, timeout) {
        1 + expired_count(entries.drop_first(), now, timeout)
    } else {
        0
    }
}

/// How many entries at the front of `entries` were inserted at `now` or
/// before.
pub open spec fn older_count(entries: Seq<RouteBack>, now: u64) -> nat
    decreases entries.len(),
{
    if entries.len() == 0 {
        0
    } else if entries[0].time <= now {
        1 + older_count(entries.drop_first(), now)
    } else {
        0
    }
}

/// The smaller of two numbers.
pub open spec fn at_most(a: int, b: int) -> int {
    if a <= b {
        a
    } else {
        b
    }
}

/// What eviction leaves: the entries without the expired ones at the front
/// and, where those left still fill the cache, without the `batch` oldest of
/// them.
pub open spec fn evicted(
    entries: Seq<RouteBack>,
    now: u64,
    timeout: u64,
    capacity: u64,
    batch: u64,
) -> Seq<RouteBack> {
    let fresh = entries.skip(expired_count(entries, now, timeout) as int);
    if fresh.len() >= capacity {
        fresh.skip(at_most(batch as int, fresh.len() as int))
    } else {
        fresh
    }
}

/// Whether some entry is for `hash`.
pub open spec fn holds_hash(entries: Seq<RouteBack>, hash: Seq<u8>) -> bool {
    exists|i: int| 0 <= i < entries.len() && (#[trigger] entries[i]).hash == hash
}

/// The place of the entry for `hash`.
pub open spec fn place_of(entries: Seq<RouteBack>, hash: Seq<u8>) -> int {
    choose|i: int| 0 <= i < entries.len() && (#[trigger] entries[i]).hash == hash
}

/// The entries are in the order of their times, oldest first, and no two are
/// for the same hash.
pub open spec fn in_order(entries: Seq<RouteBack>) -> bool {
    &&& forall|i: int, j: int|
        0 <= i <= j < entries.len() ==> (#[trigger] entries[i]).time <= (#[trigger] entries[j]).time
    &&& forall|i: int, j: int|
        0 <= i < j < entries.len() ==> (#[trigger] entries[i]).hash != (#[trigger] entries[j]).hash
}

/// The expired entries at the front are as many as the count says, and in
/// entries in order no entry behind them is expired.
pub proof fn lemma_expired_count(entries: Seq<RouteBack>, now: u64, timeout: u64)
    requires
        in_order(entries),
    ensures
        expired_count(entries, now, timeout) <= entries.len(),
        forall|i: int|
            0 <= i < entries.len() ==> (expired((#[trigger] entries[i]).time, now, timeout) <==> i
                < expired_count(entries, now, timeout)),
    decreases entries.len(),
{
    if entries.len() > 0 {
        let rest = entries.drop_first();
        assert forall|i: int, j: int| 0 <= i <= j < rest.len() implies (#[trigger] rest[i]).time <= (
        #[trigger] rest[j]).time by {
            assert(rest[i] == entries[i + 1] && rest[j] == entries[j + 1]);
        }
        assert forall|i: int, j: int| 0 <= i < j < rest.len() implies (#[trigger] rest[i]).hash != (
        #[trigger] rest[j]).hash by {
            assert(rest[i] == entries[i + 1] && rest[j] == entries[j + 1]);
        }
        lemma_expired_count(rest, now, timeout);
        assert forall|i: int| 0 <= i < entries.len() implies (expired(
            (#[trigger] entries[i]).time,
            now,
            timeout,
        ) <==> i < expired_count(entries, now, timeout)) by {
            if i > 0 {
                assert(entries[i] == rest[i - 1]);
                assert(entries[0].time <= entries[i].time);
            }
        }
    }
}

/// The entries inserted at `now` or before are as many as the count says.
pub proof fn lemma_older_count(entries: Seq<RouteBack>, now: u64)
    requires
        in_order(entries),
    ensures
        older_count(entries, now) <= entries.len(),
        forall|i: int|
            0 <= i < entries.len() ==> ((#[trigger] entries[i]).time <= now <==> i < older_count(
                entries,
                now,
            )),
    decreases entries.len(),
{
    if entries.len() > 0 {
        let rest = entries.drop_first();
        assert forall|i: int, j: int| 0 <= i <= j < rest.len() implies (#[trigger] rest[i]).time <= (
        #[trigger] rest[j]).time by {
            assert(rest[i] == entries[i + 1] && rest[j] == entries[j + 1]);
        }
        assert forall|i: int, j: int| 0 <= i < j < rest.len() implies (#[trigger] rest[i]).hash != (
        #[trigger] rest[j]).hash by {
            assert(rest[i] == entries[i + 1] && rest[j] == entries[j + 1]);
        }
        lemma_older_count(rest, now);
        assert forall|i: int| 0 <= i < entries.len() implies ((#[trigger] entries[i]).time <= now
            <==> i < older_count(entries, now)) by {
            if i > 0 {
                assert(entries[i] == rest[i - 1]);
                assert(entries[0].time <= entries[i].time);
            }
        }
    }
}

/// What eviction leaves is in order, holds no expired entry, and holds only
/// entries that were there.
pub proof fn lemma_evicted(entries: Seq<RouteBack>, now: u64, timeout: u64, capacity: u64, batch: u64)
    requires
        in_order(entries),
    ensures
        in_order(evicted(entries, now, timeout, capacity, batch)),
        evicted(entries, now, timeout, capacity, batch).len() <= entries.len(),
        forall|i: int|
            0 <= i < evicted(entries, now, timeout, capacity, batch).len() ==> !expired(
                (#[trigger] evicted(entries, now, timeout, capacity, batch)[i]).time,
                now,
                timeout,
            ),
        forall|hash: Seq<u8>|
            holds_hash(evicted(entries, now, timeout, capacity, batch), hash) ==> holds_hash(
                entries,
                hash,
            ),
{
    lemma_expired_count(entries, now, timeout);
    let k = expired_count(entries, now, timeout) as int;
    let fresh = entries.skip(k);
    let left = evicted(entries, now, timeout, capacity, batch);
    let d = entries.len() - left.len();
    assert(left =~= entries.skip(d));
    assert(d >= k);
    assert forall|i: int| 0 <= i < left.len() implies !expired((#[trigger] left[i]).time, now, timeout) by {
        assert(left[i] == entries[i + d]);
    }
    assert forall|i: int, j: int| 0 <= i <= j < left.len() implies (#[trigger] left[i]).time <= (
    #[trigger] left[j]).time by {
        assert(left[i] == entries[i + d] && left[j] == entries[j + d]);
    }
    assert forall|i: int, j: int| 0 <= i < j < left.len() implies (#[trigger] left[i]).hash != (
    #[trigger] left[j]).hash by {
        assert(left[i] == entries[i + d] && left[j] == entries[j + d]);
    }
    assert forall|hash: Seq<u8>| holds_hash(left, hash) implies holds_hash(entries, hash) by {
        let i = place_of(left, hash);
        assert(entries[i + d].hash == hash);
    }
}

/// A cache that is full of entries none of which is expired loses a batch of
/// its oldest entries when it evicts, or all of them where they are fewer.
pub proof fn lemma_full_cache_drops_batch(
    entries: Seq<RouteBack>,
    now: u64,
    timeout: u64,
    capacity: u64,
    batch: u64,
)
    requires
        in_order(entries),
        entries.len() >= capacity,
        forall|i: int| 0 <= i < entries.len() ==> !expired((#[trigger] entries[i]).time, now, timeout),
    ensures
        evicted(entries, now, timeout, capacity, batch) == entries.skip(
            at_most(batch as int, entries.len() as int),
        ),
{
    lemma_expired_count(entries, now, timeout);
    if expired_count(entries, now, timeout) > 0 {
        assert(expired(entries[0].time, now, timeout));
    }
    assert(entries.skip(0) =~= entries);
}

/// Whether the entry for `hash` outlasts the eviction at `now`: it is not
/// expired, and where the entries that are not expired fill the cache it is
/// not among the `batch` oldest of them.
pub open spec fn outlasts(
    entries: Seq<RouteBack>,
    hash: Seq<u8>,
    now: u64,
    timeout: u64,
    capacity: u64,
    batch: u64,
) -> bool {
    let at = place_of(entries, hash);
    let gone = expired_count(entries, now, timeout);
    &&& holds_hash(entries, hash)
    &&& !expired(entries[at].time, now, timeout)
    &&& entries.len() - gone < capacity || at - gone >= batch
}

/// Eviction leaves the entry for a hash exactly where the entry outlasts
/// it, and leaves it as it was.
pub proof fn lemma_entry_stays(
    entries: Seq<RouteBack>,
    hash: Seq<u8>,
    now: u64,
    timeout: u64,
    capacity: u64,
    batch: u64,
)
    requires
        in_order(entries),
    ensures
        holds_hash(evicted(entries, now, timeout, capacity, batch), hash) == outlasts(
            entries,
            hash,
            now,
            timeout,
            capacity,
            batch,
        ),
        outlasts(entries, hash, now, timeout, capacity, batch) ==> evicted(
            entries,
            now,
            timeout,
            capacity,
            batch,
        )[place_of(evicted(entries, now, timeout, capacity, batch), hash)] == entries[place_of(
            entries,
            hash,
        )],
{
    lemma_expired_count(entries, now, timeout);
    lemma_evicted(entries, now, timeout, capacity, batch);
    let left = evicted(entries, now, timeout, capacity, batch);
    let d = entries.len() - left.len();
    assert(left =~= entries.skip(d));
    if holds_hash(left, hash) {
        let found = place_of(left, hash);
        assert(left[found] == entries[found + d]);
        let at = place_of(entries, hash);
        if found + d < at {
            assert(entries[found + d].hash != entries[at].hash);
        }
        if at < found + d {
            assert(entries[at].hash != entries[found + d].hash);
        }
    }
    if outlasts(entries, hash, now, timeout, capacity, batch) {
        let at = place_of(entries, hash);
        assert(left[at - d] == entries[at]);
    }
}

/// The youngest entry outlasts an eviction at which it is not expired, in
/// a cache that drops fewer entries at a time than it holds.
pub proof fn lemma_youngest_outlasts(
    entries: Seq<RouteBack>,
    hash: Seq<u8>,
    now: u64,
    timeout: u64,
    capacity: u64,
    batch: u64,
)
    requires
        in_order(entries),
        entries.len() > 0,
        entries.last().hash == hash,
        !expired(entries.last().time, now, timeout),
        batch < capacity,
    ensures
        outlasts(entries, hash, now, timeout, capacity, batch),
{
    lemma_expired_count(entries, now, timeout);
    let last = entries.len() - 1;
    assert(entries[last].hash == hash);
    let at = place_of(entries, hash);
    if at < last {
        assert(entries[at].hash != entries[last].hash);
    }
}

/// An entry of the cache.
struct Entry {
    time: u64,
    hash: CryptoHash,
    peer: PeerId,
}

impl Entry {
    spec fn value(self) -> RouteBack {
        RouteBack { time: self.time, hash: self.hash@, peer: self.peer@ }
    }
}

/// The entries as values.
spec fn values(entries: Seq<Entry>) -> Seq<RouteBack> {
    Seq::new(entries.len(), |i: int| entries[i].value())
}

/// The number that the first eight bytes of a hash spell.
spec fn mark_of(hash: Seq<u8>) -> u64 {
    le_value(hash.subrange(0, 8))
}

/// The marks are those of the hashes of the entries, place by place.
spec fn marked(entries: Seq<Entry>, marks: Seq<u64>) -> bool {
    &&& marks.len() == entries.len()
    &&& forall|i: int| 0 <= i < entries.len() ==> #[trigger] marks[i] == mark_of(entries[i].hash@)
}

/// The mark of a hash.
fn mark(hash: &CryptoHash) -> (mark: u64)
    ensures
        mark == mark_of(hash@),
{
    read_le_bytes(hash.as_bytes(), 0)
}

/// A bounded cache from the hash of a message to the peer it came from.
/// Entries leave when they are older than the timeout; where the cache is
/// still full after that, a batch of the oldest leaves too.
pub struct RouteBackCache {
    /// The entries, oldest first, and beside them the mark of the hash of
    /// each, by which a hash is looked for.
    slots: (Vec<Entry>, Vec<u64>),
    capacity: u64,
    evict_timeout: u64,
    remove_batch: u64,
}

impl RouteBackCache {
    /// The entries are in the order of their times, no hash occurs twice, and
    /// each entry has its mark beside it.
    #[verifier::type_invariant]
    pub closed spec fn wf(self) -> bool {
        in_order(values(self.slots.0@)) && marked(self.slots.0@, self.slots.1@)
    }

    /// The entries, oldest first.
    pub closed spec fn view(self) -> Seq<RouteBack> {
        values(self.slots.0@)
    }

    /// The number of entries from which on the cache is full.
    pub closed spec fn capacity(self) -> u64 {
        self.capacity
    }

    /// The age above which an entry is expired.
    pub closed spec fn evict_timeout(self) -> u64 {
        self.evict_timeout
    }

    /// How many of the oldest entries leave a full cache at once.
    pub closed spec fn remove_batch(self) -> u64 {
        self.remove_batch
    }

    /// `other` is a cache with the same capacity, timeout and batch.
    pub open spec fn same_limits(self, other: RouteBackCache) -> bool {
        &&& self.capacity() == other.capacity()
        &&& self.evict_timeout() == other.evict_timeout()
        &&& self.remove_batch() == other.remove_batch()
    }

    /// What eviction at `now` leaves of this cache.
    pub open spec fn after_eviction(self, now: u64) -> Seq<RouteBack> {
        evicted(self@, now, self.evict_timeout(), self.capacity(), self.remove_batch())
    }

    /// Whether the entry for `hash` outlasts the eviction at `now`.
    pub open spec fn keeps(self, hash: Seq<u8>, now: u64) -> bool {
        outlasts(self@, hash, now, self.evict_timeout(), self.capacity(), self.remove_batch())
    }

    /// What an insertion at `now` leaves of this cache: the entry goes in
    /// unless eviction leaves an entry for its hash.
    pub open spec fn after_insert(self, hash: Seq<u8>, peer: Seq<u8>, now: u64) -> Seq<RouteBack> {
        let left = self.after_eviction(now);
        if holds_hash(left, hash) {
            left
        } else {
            left.insert(older_count(left, now) as int, RouteBack { time: now, hash, peer })
        }
    }

    /// A route back is not overwritten. Where the cache `noted` holds an
    /// entry for a hash that outlasts the eviction at `now`, an insertion
    /// for that hash at `now` is turned down and leaves the entry as it was;
    /// where the entry also outlasts the eviction at `later` in the cache
    /// `after` that the insertion left, a removal at `later` finds the peer
    /// that was noted first.
    pub proof fn lemma_no_overwrite(
        noted: RouteBackCache,
        after: RouteBackCache,
        hash: Seq<u8>,
        second: Seq<u8>,
        now: u64,
        later: u64,
    )
        requires
            noted.wf(),
            after.wf(),
            after.same_limits(noted),
            after@ == noted.after_insert(hash, second, now),
            noted.keeps(hash, now),
        ensures
            holds_hash(noted.after_eviction(now), hash),
            after@ == noted.after_eviction(now),
            holds_hash(after@, hash),
            after@[place_of(after@, hash)] == noted@[place_of(noted@, hash)],
            after.keeps(hash, later) ==> holds_hash(after.after_eviction(later), hash)
                && after.after_eviction(later)[place_of(after.after_eviction(later), hash)]
                == noted@[place_of(noted@, hash)],
    {
        noted.lemma_in_order();
        after.lemma_in_order();
        lemma_entry_stays(
            noted@,
            hash,
            now,
            noted.evict_timeout(),
            noted.capacity(),
            noted.remove_batch(),
        );
        lemma_entry_stays(
            after@,
            hash,
            later,
            after.evict_timeout(),
            after.capacity(),
            after.remove_batch(),
        );
    }

    /// A route back is not overwritten while it is not expired, in a cache
    /// that drops fewer entries at a time than it holds and with a clock
    /// that does not go back. Where an insertion at `t1` was accepted, an
    /// insertion for the same hash at `t2` is turned down and leaves the
    /// peer noted first, and a removal at `t3` finds that peer.
    pub proof fn lemma_first_route_back_stays(
        before: RouteBackCache,
        noted: RouteBackCache,
        after: RouteBackCache,
        hash: Seq<u8>,
        first: Seq<u8>,
        second: Seq<u8>,
        t1: u64,
        t2: u64,
        t3: u64,
    )
        requires
            before.wf(),
            noted.wf(),
            after.wf(),
            noted.same_limits(before),
            after.same_limits(noted),
            before.remove_batch() < before.capacity(),
            forall|i: int| 0 <= i < before@.len() ==> (#[trigger] before@[i]).time <= t1,
            t1 <= t2 <= t3,
            t3 - t1 <= before.evict_timeout(),
            !holds_hash(before.after_eviction(t1), hash),
            noted@ == before.after_insert(hash, first, t1),
            after@ == noted.after_insert(hash, second, t2),
        ensures
            holds_hash(noted.after_eviction(t2), hash),
            after@ == noted.after_eviction(t2),
            holds_hash(after@, hash),
            after@[place_of(after@, hash)].peer == first,
            holds_hash(after.after_eviction(t3), hash),
            after.after_eviction(t3)[place_of(after.after_eviction(t3), hash)].peer == first,
    {
        let timeout = before.evict_timeout();
        let capacity = before.capacity();
        let batch = before.remove_batch();
        before.lemma_in_order();
        noted.lemma_in_order();
        after.lemma_in_order();
        let left = before.after_eviction(t1);
        lemma_evicted(before@, t1, timeout, capacity, batch);
        let d = before@.len() - left.len();
        assert(left =~= before@.skip(d)) by {
            lemma_expired_count(before@, t1, timeout);
        }
        assert forall|i: int| 0 <= i < left.len() implies (#[trigger] left[i]).time <= t1 by {
            assert(left[i] == before@[i + d]);
        }
        lemma_older_count(left, t1);
        let entry = RouteBack { time: t1, hash, peer: first };
        assert(older_count(left, t1) == left.len()) by {
            if older_count(left, t1) < left.len() {
                assert(left[older_count(left, t1) as int].time <= t1);
            }
        }
        assert(noted@.last() == entry);
        lemma_youngest_outlasts(noted@, hash, t2, timeout, capacity, batch);
        Self::lemma_no_overwrite(noted, after, hash, second, t2, t3);
        lemma_entry_stays(noted@, hash, t2, timeout, capacity, batch);
        lemma_expired_count(noted@, t2, timeout);
        let e = noted@.len() - after@.len();
        assert(after@ =~= noted@.skip(e));
        assert(after@.len() > 0) by {
            assert(holds_hash(after@, hash));
        }
        assert(after@.last() == noted@.last());
        lemma_youngest_outlasts(after@, hash, t3, timeout, capacity, batch);
        let at = place_of(noted@, hash);
        if at < noted@.len() - 1 {
            assert(noted@[at].hash != noted@[noted@.len() - 1].hash);
        }
    }

    /// The entries of a cache are in order.
    pub proof fn lemma_in_order(self)
        requires
            self.wf(),
        ensures
            in_order(self@),
    {
    }

    /// The empty cache with the given limits.
    pub fn new(capacity: u64, evict_timeout: u64, remove_batch: u64) -> (cache: RouteBackCache)
        ensures
            cache.wf(),
            cache@ == Seq::<RouteBack>::empty(),
            cache.capacity() == capacity,
            cache.evict_timeout() == evict_timeout,
            cache.remove_batch() == remove_batch,
    {
        let cache = RouteBackCache {
            slots: (Vec::new(), Vec::new()),
            capacity,
            evict_timeout,
            remove_batch,
        };
        assert(cache@ =~= Seq::<RouteBack>::empty());
        cache
    }

    /// The number of entries.
    pub fn len(&self) -> (n: usize)
        ensures
            n == self@.len(),
    {
        self.slots.0.len()
    }

    /// Whether the cache is full: whether it holds as many entries as its
    /// capacity, or more.
    pub fn is_full(&self) -> (full: bool)
        ensures
            full == (self@.len() >= self.capacity()),
    {
        self.slots.0.len() as u64 >= self.capacity
    }

    /// Where the entry for `hash` is, if there is one.
    fn find(entries: &Vec<Entry>, marks: &Vec<u64>, hash: &CryptoHash) -> (at: Option<usize>)
        requires
            marked(entries@, marks@),
        ensures
            at.is_some() == holds_hash(values(entries@), hash@),
            at matches Some(i) ==> i < entries@.len() && entries@[i as int].hash@ == hash@,
    {
        let wanted = mark(hash);
        let mut i: usize = 0;
        while i < marks.len()
            invariant
                i <= entries@.len(),
                marked(entries@, marks@),
                wanted == mark_of(hash@),
                forall|j: int| 0 <= j < i ==> (#[trigger] values(entries@)[j]).hash != hash@,
            decreases entries@.len() - i,
        {
            if marks[i] == wanted && entries[i].hash.same(hash) {
                assert(values(entries@)[i as int].hash == hash@);
                return Some(i);
            }
            i += 1;
        }
        None
    }

    /// Takes the expired entries away and, where the cache is still full, a
    /// batch of the oldest.
    fn remove_evicted(
        slots: (Vec<Entry>, Vec<u64>),
        now: u64,
        timeout: u64,
        capacity: u64,
        batch: u64,
    ) -> (left: (Vec<Entry>, Vec<u64>))
        requires
            in_order(values(slots.0@)),
            marked(slots.0@, slots.1@),
        ensures
            values(left.0@) == evicted(values(slots.0@), now, timeout, capacity, batch),
            in_order(values(left.0@)),
            marked(left.0@, left.1@),
    {
        let ghost all = values(slots.0@);
        proof {
            lemma_expired_count(all, now, timeout);
            lemma_evicted(all, now, timeout, capacity, batch);
        }
        let mut entries = slots.0;
        let mut marks = slots.1;
        let mut k: usize = 0;
        while k < entries.len() && now > entries[k].time && now - entries[k].time > timeout
            invariant
                k <= entries@.len(),
                values(entries@) == all,
                forall|i: int| 0 <= i < k ==> expired((#[trigger] all[i]).time, now, timeout),
            ensures
                k <= entries@.len(),
                values(entries@) == all,
                forall|i: int| 0 <= i < k ==> expired((#[trigger] all[i]).time, now, timeout),
                k < entries@.len() ==> !expired(all[k as int].time, now, timeout),
            decreases entries@.len() - k,
        {
            k += 1;
        }
        assert(k == expired_count(all, now, timeout)) by {
            let c = expired_count(all, now, timeout) as int;
            if k < c {
                assert(expired(all[k as int].time, now, timeout));
            }
            if c < k {
                assert(expired(all[c].time, now, timeout));
            }
        }
        let ghost kept = entries@;
        let ghost kept_marks = marks@;
        let mut drop: usize = k;
        if (entries.len() - k) as u64 >= capacity {
            let rest = entries.len() - k;
            drop = if batch < rest as u64 {
                k + batch as usize
            } else {
                entries.len()
            };
        }
        proof {
            let fresh = all.skip(k as int);
            assert(evicted(all, now, timeout, capacity, batch) =~= all.skip(drop as int)) by {
                assert(fresh.skip(drop - k) =~= all.skip(drop as int));
                assert(fresh.skip(0) =~= fresh);
            }
        }
        if drop > 0 {
            let fresh = entries.split_off(drop);
            let fresh_marks = marks.split_off(drop);
            assert(fresh@ =~= kept.skip(drop as int));
            assert(fresh_marks@ =~= kept_marks.skip(drop as int));
            assert(values(fresh@) =~= all.skip(drop as int));
            (fresh, fresh_marks)
        } else {
            assert(all.skip(0) =~= all);
            (entries, marks)
        }
    }

    /// Takes the entries of the cache out, leaving it empty.
    fn take_slots(&mut self) -> (slots: (Vec<Entry>, Vec<u64>))
        ensures
            slots == old(self).slots,
            final(self).capacity == old(self).capacity,
            final(self).evict_timeout == old(self).evict_timeout,
            final(self).remove_batch == old(self).remove_batch,
            in_order(values(slots.0@)),
            marked(slots.0@, slots.1@),
    {
        proof {
            use_type_invariant(&*self);
        }
        let mut slots: (Vec<Entry>, Vec<u64>) = (Vec::new(), Vec::new());
        assert(values(slots.0@) =~= Seq::<RouteBack>::empty());
        core::mem::swap(&mut self.slots, &mut slots);
        slots
    }

    /// Notes that the message with the hash `hash` came from `target`, at the
    /// time `now`. First the cache evicts. If it then holds an entry for the
    /// hash, that entry stays as it is and the answer is `false`; else the new
    /// entry goes behind the entries that are not younger, and the answer is
    /// `true`.
    pub fn insert(&mut self, hash: CryptoHash, target: PeerId, now: u64) -> (inserted: bool)
        ensures
            final(self).wf(),
            final(self).same_limits(*old(self)),
            inserted == !holds_hash(old(self).after_eviction(now), hash@),
            !inserted ==> final(self)@ == old(self).after_eviction(now),
            inserted ==> final(self)@ == old(self).after_eviction(now).insert(
                older_count(old(self).after_eviction(now), now) as int,
                RouteBack { time: now, hash: hash@, peer: target@ },
            ),
            holds_hash(final(self)@, hash@),
            final(self)@ == old(self).after_insert(hash@, target@, now),
            inserted ==> final(self)@[place_of(final(self)@, hash@)] == (RouteBack {
                time: now,
                hash: hash@,
                peer: target@,
            }),
    {
        let ghost before = *self;
        let taken = self.take_slots();
        let left_slots = Self::remove_evicted(
            taken,
            now,
            self.evict_timeout,
            self.capacity,
            self.remove_batch,
        );
        let mut entries = left_slots.0;
        let mut marks = left_slots.1;
        let ghost left = values(entries@);
        assert(left == before.after_eviction(now));
        if Self::find(&entries, &marks, &hash).is_some() {
            self.slots = (entries, marks);
            return false;
        }
        proof {
            lemma_older_count(left, now);
        }
        let mut at: usize = entries.len();
        while at > 0 && entries[at - 1].time > now
            invariant
                at <= entries@.len(),
                values(entries@) == left,
                forall|i: int| at <= i < left.len() ==> (#[trigger] left[i]).time > now,
            ensures
                at <= entries@.len(),
                values(entries@) == left,
                forall|i: int| at <= i < left.len() ==> (#[trigger] left[i]).time > now,
                at > 0 ==> left[at - 1].time <= now,
            decreases at,
        {
            at -= 1;
        }
        assert(at == older_count(left, now)) by {
            let c = older_count(left, now) as int;
            if at < c {
                assert(left[at as int].time <= now);
            }
            if c < at {
                assert(left[at - 1].time <= now);
                assert(left[c].time <= left[at - 1].time);
            }
        }
        let ghost entry = RouteBack { time: now, hash: hash@, peer: target@ };
        let ghost slots = entries@;
        let ghost old_marks = marks@;
        let tag = mark(&hash);
        entries.insert(at, Entry { time: now, hash, peer: target });
        marks.insert(at, tag);
        proof {
            assert forall|i: int| 0 <= i < entries@.len() implies #[trigger] marks@[i] == mark_of(
                entries@[i].hash@,
            ) by {
                if i < at {
                    assert(entries@[i] == slots[i] && marks@[i] == old_marks[i]);
                } else if i > at {
                    assert(entries@[i] == slots[i - 1] && marks@[i] == old_marks[i - 1]);
                }
            }
            let after = values(entries@);
            assert(after =~= left.insert(at as int, entry));
            assert forall|i: int, j: int| 0 <= i <= j < after.len() implies (#[trigger] after[i]).time
                <= (#[trigger] after[j]).time by {
                let i0 = if i < at { i } else { i - 1 };
                let j0 = if j < at { j } else { j - 1 };
                if i != at {
                    assert(after[i] == left[i0]);
                }
                if j != at {
                    assert(after[j] == left[j0]);
                }
                if i != at && j != at {
                    assert(left[i0].time <= left[j0].time);
                }
            }
            assert forall|i: int, j: int| 0 <= i < j < after.len() implies (#[trigger] after[i]).hash
                != (#[trigger] after[j]).hash by {
                let i0 = if i < at { i } else { i - 1 };
                let j0 = if j < at { j } else { j - 1 };
                if i != at {
                    assert(after[i] == left[i0]);
                }
                if j != at {
                    assert(after[j] == left[j0]);
                }
                if i != at && j != at {
                    assert(left[i0].hash != left[j0].hash);
                }
            }
            assert(after[at as int].hash == hash@);
            let found = place_of(after, hash@);
            if found < at {
                assert(after[found].hash != after[at as int].hash);
            }
            if at < found {
                assert(after[at as int].hash != after[found].hash);
            }
        }
        self.slots = (entries, marks);
        true
    }

    /// Takes the entry for `hash` out, if the cache holds one once it has
    /// evicted at the time `now`, and returns its peer.
    pub fn remove(&mut self, hash: &CryptoHash, now: u64) -> (peer: Option<PeerId>)
        ensures
            final(self).wf(),
            final(self).same_limits(*old(self)),
            peer.is_some() == holds_hash(old(self).after_eviction(now), hash@),
            peer matches Some(p) ==> p@ == old(self).after_eviction(now)[place_of(
                old(self).after_eviction(now),
                hash@,
            )].peer && final(self)@ == old(self).after_eviction(now).remove(
                place_of(old(self).after_eviction(now), hash@),
            ),
            peer is None ==> final(self)@ == old(self).after_eviction(now),
            !holds_hash(final(self)@, hash@),
    {
        let ghost before = *self;
        let taken = self.take_slots();
        let left_slots = Self::remove_evicted(
            taken,
            now,
            self.evict_timeout,
            self.capacity,
            self.remove_batch,
        );
        let mut entries = left_slots.0;
        let mut marks = left_slots.1;
        let ghost left = values(entries@);
        match Self::find(&entries, &marks, hash) {
            Some(i) => {
                let ghost slots = entries@;
                let ghost old_marks = marks@;
                let entry = entries.remove(i);
                marks.remove(i);
                proof {
                    assert forall|j: int| 0 <= j < entries@.len() implies #[trigger] marks@[j]
                        == mark_of(entries@[j].hash@) by {
                        if j < i {
                            assert(entries@[j] == slots[j] && marks@[j] == old_marks[j]);
                        } else {
                            assert(entries@[j] == slots[j + 1] && marks@[j] == old_marks[j + 1]);
                        }
                    }
                    let after = values(entries@);
                    let at = place_of(left, hash@);
                    assert(left[i as int].hash == hash@);
                    assert(at == i) by {
                        if at < i {
                            assert(left[at].hash != left[i as int].hash);
                        }
                        if i < at {
                            assert(left[i as int].hash != left[at].hash);
                        }
                    }
                    assert(after =~= left.remove(i as int));
                    assert forall|a: int, b: int| 0 <= a <= b < after.len() implies (
                    #[trigger] after[a]).time <= (#[trigger] after[b]).time by {
                        let a0 = if a < i { a } else { a + 1 };
                        let b0 = if b < i { b } else { b + 1 };
                        assert(after[a] == left[a0] && after[b] == left[b0]);
                    }
                    assert forall|a: int, b: int| 0 <= a < b < after.len() implies (
                    #[trigger] after[a]).hash != (#[trigger] after[b]).hash by {
                        let a0 = if a < i { a } else { a + 1 };
                        let b0 = if b < i { b } else { b + 1 };
                        assert(after[a] == left[a0] && after[b] == left[b0]);
                    }
                    if holds_hash(after, hash@) {
                        let a = place_of(after, hash@);
                        let a0 = if a < i { a } else { a + 1 };
                        assert(after[a] == left[a0]);
                        if a0 < i {
                            assert(left[a0].hash != left[i as int].hash);
                        } else {
                            assert(left[i as int].hash != left[a0].hash);
                        }
                    }
                }
                self.slots = (entries, marks);
                Some(entry.peer)
            },
            None => {
                self.slots = (entries, marks);
                None
            },
        }
    }

    /// The peer from which the message with the hash `hash` came, if the
    /// cache holds an entry for it. The cache stays as it is.
    pub fn get(&self, hash: &CryptoHash) -> (peer: Option<&PeerId>)
        ensures
            peer.is_some() == holds_hash(self@, hash@),
            peer matches Some(p) ==> p@ == self@[place_of(self@, hash@)].peer,
    {
        proof {
            use_type_invariant(self);
        }
        match Self::find(&self.slots.0, &self.slots.1, hash) {
            Some(i) => {
                proof {
                    let all = self@;
                    let at = place_of(all, hash@);
                    assert(all[i as int].hash == hash@);
                    if at < i {
                        assert(all[at].hash != all[i as int].hash);
                    }
                    if i < at {
                        assert(all[i as int].hash != all[at].hash);
                    }
                }
                Some(&self.slots.0[i].peer)
            },
            None => None,
        }
    }
}

} // verus!
