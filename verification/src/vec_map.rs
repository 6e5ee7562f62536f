//! A map kept as a list of entries in the order in which their keys arrived.

use vstd::prelude::*;
use crate::announce::AccountId;
use crate::keys::{CryptoHash, PeerId};

verus! {

/// A key that can be compared with another: two keys are the same key exactly
/// when their views are equal.
pub trait Keyed: View + Sized {
    /// Whether this key and `other` are the same key.
    fn same_key(&self, other: &Self) -> (same: bool)
        ensures
            same == (self@ == other@),
    ;
}

impl Keyed for PeerId {
    fn same_key(&self, other: &Self) -> (same: bool) {
        self.same(other)
    }
}

impl Keyed for AccountId {
    fn same_key(&self, other: &Self) -> (same: bool) {
        self.same(other)
    }
}

impl Keyed for CryptoHash {
    fn same_key(&self, other: &Self) -> (same: bool) {
        self.same(other)
    }
}

impl Keyed for (PeerId, PeerId) {
    fn same_key(&self, other: &Self) -> (same: bool) {
        self.0.same(&other.0) && self.1.same(&other.1)
    }
}

impl Keyed for usize {
    fn same_key(&self, other: &Self) -> (same: bool) {
        *self == *other
    }
}

/// The keys of a list of entries, by their views.
pub open spec fn key_views<K: View, V>(entries: Seq<(K, V)>) -> Seq<K::V> {
    Seq::new(entries.len(), |i: int| entries[i].0@)
}

/// A map from keys to values. No key occurs twice; the entries keep the order
/// in which their keys were first inserted.
#[derive(Debug)]
pub struct VecMap<K: Keyed, V> {
    entries: Vec<(K, V)>,
}

impl<K: Keyed, V> VecMap<K, V> {
    /// No key occurs twice.
    #[verifier::type_invariant]
    pub closed spec fn wf(self) -> bool {
        key_views(self.entries@).no_duplicates()
    }

    /// The entries in order.
    pub closed spec fn entries(self) -> Seq<(K, V)> {
        self.entries@
    }

    /// The keys in order, by their views.
    pub open spec fn keys(self) -> Seq<K::V> {
        key_views(self.entries())
    }

    /// Whether the map holds `key`.
    pub open spec fn has(self, key: K::V) -> bool {
        self.keys().contains(key)
    }

    /// The place of `key` among the entries.
    pub open spec fn index_of(self, key: K::V) -> int {
        self.keys().index_of(key)
    }

    /// The value under `key`.
    pub open spec fn value(self, key: K::V) -> V
        recommends
            self.has(key),
    {
        self.entries()[self.index_of(key)].1
    }

    /// The map as a mathematical map from key views to values.
    pub open spec fn view(self) -> Map<K::V, V> {
        Map::new(|key: K::V| self.has(key), |key: K::V| self.value(key))
    }

    /// In a well-formed map the keys are distinct, and each entry is found
    /// again under its key.
    pub proof fn lemma_entries(self)
        requires
            self.wf(),
        ensures
            self.keys().no_duplicates(),
            self.keys().len() == self.entries().len(),
            forall|i: int|
                0 <= i < self.entries().len() ==> {
                    &&& self.has(#[trigger] self.entries()[i].0@)
                    &&& self.index_of(self.entries()[i].0@) == i
                    &&& self.value(self.entries()[i].0@) == self.entries()[i].1
                },
            forall|key: K::V|
                self.has(key) ==> 0 <= #[trigger] self.index_of(key) < self.entries().len()
                    && self.entries()[self.index_of(key)].0@ == key,
    {
        let keys = self.keys();
        assert forall|i: int| 0 <= i < self.entries().len() implies {
            &&& self.has(#[trigger] self.entries()[i].0@)
            &&& self.index_of(self.entries()[i].0@) == i
            &&& self.value(self.entries()[i].0@) == self.entries()[i].1
        } by {
            assert(keys[i] == self.entries()[i].0@);
            let j = keys.index_of(keys[i]);
            assert(keys[j] == keys[i]);
        }
        assert forall|key: K::V| self.has(key) implies 0 <= #[trigger] self.index_of(key)
            < self.entries().len() && self.entries()[self.index_of(key)].0@ == key by {
            let j = keys.index_of(key);
            assert(keys[j] == key);
        }
    }

    /// The empty map.
    pub fn new() -> (map: Self)
        ensures
            map.wf(),
            map.entries() == Seq::<(K, V)>::empty(),
            map@ == Map::<K::V, V>::empty(),
    {
        let map = VecMap { entries: Vec::new() };
        assert(map@ =~= Map::<K::V, V>::empty());
        map
    }

    /// The number of entries.
    pub fn len(&self) -> (n: usize)
        ensures
            self.wf(),
            n == self.entries().len(),
            n == self.keys().len(),
    {
        proof {
            use_type_invariant(self);
        }
        self.entries.len()
    }

    /// The place of `key` among the entries, if the map holds it.
    pub fn find(&self, key: &K) -> (found: Option<usize>)
        ensures
            self.wf(),
            found.is_some() == self.has(key@),
            found matches Some(i) ==> i == self.index_of(key@) && i < self.entries().len()
                && self.entries()[i as int].0@ == key@,
    {
        proof {
            use_type_invariant(self);
            self.lemma_entries();
        }
        let mut i: usize = 0;
        while i < self.entries.len()
            invariant
                self.wf(),
                i <= self.entries.len(),
                forall|j: int| 0 <= j < i ==> self.entries@[j].0@ != key@,
            decreases self.entries.len() - i,
        {
            if self.entries[i].0.same_key(key) {
                proof {
                    self.lemma_entries();
                    assert(self.keys()[i as int] == key@);
                }
                return Some(i);
            }
            i += 1;
        }
        proof {
            if self.has(key@) {
                let j = self.index_of(key@);
                assert(self.entries@[j].0@ == key@);
            }
        }
        None
    }

    /// Whether the map holds `key`.
    pub fn contains_key(&self, key: &K) -> (held: bool)
        ensures
            held == self.has(key@),
            held == self@.contains_key(key@),
    {
        self.find(key).is_some()
    }

    /// The value under `key`, if the map holds it.
    pub fn get(&self, key: &K) -> (value: Option<&V>)
        ensures
            self.wf(),
            value.is_some() == self.has(key@),
            value matches Some(v) ==> *v == self.value(key@) && *v == self@[key@],
    {
        match self.find(key) {
            Some(i) => Some(&self.entries[i].1),
            None => None,
        }
    }

    /// The key at place `i`.
    pub fn key_at(&self, i: usize) -> (key: &K)
        requires
            i < self.entries().len(),
        ensures
            *key == self.entries()[i as int].0,
            self.has(key@),
    {
        proof {
            use_type_invariant(self);
            self.lemma_entries();
        }
        &self.entries[i].0
    }

    /// The value at place `i`.
    pub fn value_at(&self, i: usize) -> (value: &V)
        requires
            i < self.entries().len(),
        ensures
            *value == self.entries()[i as int].1,
            *value == self.value(self.entries()[i as int].0@),
    {
        proof {
            use_type_invariant(self);
            self.lemma_entries();
        }
        &self.entries[i].1
    }

    /// Puts `value` under `key`. An entry that was there keeps its place and
    /// gets the new value; a new entry goes to the end. Returns whether the
    /// key was there.
    pub fn insert(&mut self, key: K, value: V) -> (was_there: bool)
        ensures
            final(self).wf(),
            was_there == old(self).has(key@),
            final(self)@ == old(self)@.insert(key@, value),
            final(self).has(key@),
            final(self).value(key@) == value,
            forall|k: K::V| k != key@ ==> final(self).has(k) == old(self).has(k),
            forall|k: K::V|
                k != key@ && old(self).has(k) ==> final(self).value(k) == old(self).value(k),
            was_there ==> final(self).entries() == old(self).entries().update(
                old(self).index_of(key@),
                (key, value),
            ),
            !was_there ==> final(self).entries() == old(self).entries().push((key, value)),
    {
        proof {
            use_type_invariant(&*self);
            self.lemma_entries();
        }
        let ghost before = *self;
        let found = self.find(&key);
        let mut entries: Vec<(K, V)> = Vec::new();
        core::mem::swap(&mut self.entries, &mut entries);
        match found {
            Some(i) => {
                entries.set(i, (key, value));
                proof {
                    assert(key_views(entries@) =~= key_views(before.entries@));
                }
                self.entries = entries;
            },
            None => {
                entries.push((key, value));
                proof {
                    let keys = key_views(entries@);
                    assert(keys =~= key_views(before.entries@).push(key@));
                    assert forall|i: int, j: int|
                        0 <= i < keys.len() && 0 <= j < keys.len() && i != j implies keys[i]
                        != keys[j] by {
                        if i < before.entries@.len() {
                            assert(key_views(before.entries@)[i] == keys[i]);
                            assert(key_views(before.entries@).contains(keys[i]));
                        }
                        if j < before.entries@.len() {
                            assert(key_views(before.entries@)[j] == keys[j]);
                            assert(key_views(before.entries@).contains(keys[j]));
                        }
                    }
                }
                self.entries = entries;
            },
        }
        proof {
            let after = *self;
            after.lemma_entries();
            let at: int = match found {
                Some(i) => i as int,
                None => before.entries@.len() as int,
            };
            assert(after.entries@[at].0@ == key@);
            assert(after.keys()[at] == key@);
            assert forall|k: K::V| k != key@ implies after.has(k) == before.has(k) by {
                if before.has(k) {
                    let j = before.index_of(k);
                    assert(after.keys()[j] == k);
                }
                if after.has(k) {
                    let j = after.index_of(k);
                    assert(before.keys()[j] == k);
                }
            }
            assert forall|k: K::V| k != key@ && before.has(k) implies after.value(k)
                == before.value(k) by {
                let j = before.index_of(k);
                assert(after.keys()[j] == k);
                assert(after.entries@[j].0@ == k);
            }
            assert(after@ =~= before@.insert(key@, value));
        }
        found.is_some()
    }

    /// Takes the entry under `key` out, if there is one, and returns its
    /// value. The other entries keep their order.
    pub fn remove(&mut self, key: &K) -> (taken: Option<V>)
        ensures
            final(self).wf(),
            taken.is_some() == old(self).has(key@),
            taken matches Some(v) ==> v == old(self).value(key@),
            final(self)@ == old(self)@.remove(key@),
            !final(self).has(key@),
            forall|k: K::V| k != key@ ==> final(self).has(k) == old(self).has(k),
            forall|k: K::V|
                k != key@ && old(self).has(k) ==> final(self).value(k) == old(self).value(k),
            old(self).has(key@) ==> final(self).entries() == old(self).entries().remove(
                old(self).index_of(key@),
            ),
            !old(self).has(key@) ==> final(self).entries() == old(self).entries(),
    {
        proof {
            use_type_invariant(&*self);
            self.lemma_entries();
        }
        let ghost before = *self;
        let found = self.find(key);
        match found {
            Some(i) => {
                let mut entries: Vec<(K, V)> = Vec::new();
                core::mem::swap(&mut self.entries, &mut entries);
                let entry = entries.remove(i);
                proof {
                    let keys = key_views(entries@);
                    let old_keys = key_views(before.entries@);
                    assert(keys =~= old_keys.remove(i as int));
                    assert forall|a: int, b: int|
                        0 <= a < keys.len() && 0 <= b < keys.len() && a != b implies keys[a]
                        != keys[b] by {
                        let a0 = if a < i { a } else { a + 1 };
                        let b0 = if b < i { b } else { b + 1 };
                        assert(keys[a] == old_keys[a0]);
                        assert(keys[b] == old_keys[b0]);
                    }
                }
                self.entries = entries;
                proof {
                    let keys = key_views(self.entries@);
                    let old_keys = key_views(before.entries@);
                    let after = *self;
                    after.lemma_entries();
                    assert forall|k: K::V| k != key@ implies after.has(k) == before.has(k) by {
                        if before.has(k) {
                            let j = before.index_of(k);
                            let j1 = if j < i { j } else { j - 1 };
                            assert(after.keys()[j1] == k);
                        }
                        if after.has(k) {
                            let j = after.index_of(k);
                            let j0 = if j < i { j } else { j + 1 };
                            assert(before.keys()[j0] == k);
                        }
                    }
                    assert forall|k: K::V| k != key@ && before.has(k) implies after.value(k)
                        == before.value(k) by {
                        let j = before.index_of(k);
                        let j1 = if j < i { j } else { j - 1 };
                        assert(after.keys()[j1] == k);
                        assert(after.entries@[j1].0@ == k);
                    }
                    if after.has(key@) {
                        let j = after.index_of(key@);
                        let j0 = if j < i { j } else { j + 1 };
                        assert(old_keys[j0] == key@);
                        assert(old_keys[i as int] == key@);
                    }
                    assert(after@ =~= before@.remove(key@));
                }
                Some(entry.1)
            },
            None => {
                proof {
                    assert(self@ =~= before@.remove(key@));
                }
                None
            },
        }
    }
}

/// The entries of a list without repeats that pass a test are a list without
/// repeats.
pub proof fn lemma_filter_distinct<A>(list: Seq<A>, test: spec_fn(A) -> bool)
    requires
        list.no_duplicates(),
    ensures
        list.filter(test).no_duplicates(),
    decreases list.len(),
{
    reveal(Seq::filter);
    if list.len() > 0 {
        let front = list.drop_last();
        lemma_filter_distinct(front, test);
        let kept = front.filter(test);
        if test(list.last()) {
            if kept.contains(list.last()) {
                front.lemma_filter_contains_rev(test, list.last());
                let j = front.index_of(list.last());
                assert(list[j] == list[list.len() - 1]);
            }
            let all = kept.push(list.last());
            assert forall|a: int, b: int| 0 <= a < all.len() && 0 <= b < all.len() && a != b implies all[a]
                != all[b] by {
                if a < kept.len() {
                    assert(kept.contains(all[a]));
                }
                if b < kept.len() {
                    assert(kept.contains(all[b]));
                }
            }
        }
    }
}

} // verus!
