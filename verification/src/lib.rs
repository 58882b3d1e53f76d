//! Recency-ordered key-value stores.
//!
//! [`LRU`] keeps its entries ordered from the most recently used to the least
//! recently used, and never drops one on its own. [`rlru::Rlru`] adds a
//! capacity: once it holds more entries than that, the least recently used
//! ones leave. Both rest on [`double_link::DoubleLink`], a doubly linked list
//! in an arena, for the order, and on a hash map from keys to the list's
//! handles for the lookup.
use std::collections::HashMap;
use std::hash::Hash;
use vstd::prelude::*;
use vstd::std_specs::hash::obeys_key_model;

pub mod double_link;
pub mod rlru;
pub mod second_linked_list;

use double_link::DoubleLink;

verus! {

/// Some entry of `entries` has the key `key`.
pub open spec fn has_key<K, V>(entries: Seq<(K, V)>, key: K) -> bool {
    exists|i: int| 0 <= i < entries.len() && (#[trigger] entries[i]).0 == key
}

/// The position of the entry with the key `key`, counted from the most
/// recently used entry. Meaningful where `has_key(entries, key)`.
pub open spec fn rank<K, V>(entries: Seq<(K, V)>, key: K) -> int {
    choose|i: int| 0 <= i < entries.len() && (#[trigger] entries[i]).0 == key
}

/// No two entries have the same key.
pub open spec fn distinct_keys<K, V>(entries: Seq<(K, V)>) -> bool {
    forall|i: int, j: int|
        0 <= i < j < entries.len() ==> (#[trigger] entries[i]).0 != (#[trigger] entries[j]).0
}

/// The value stored under `key`, if there is one.
pub open spec fn value_of<K, V>(entries: Seq<(K, V)>, key: K) -> Option<V> {
    if has_key(entries, key) {
        Some(entries[rank(entries, key)].1)
    } else {
        None
    }
}

/// The entries without the one that has the key `key`.
pub open spec fn without<K, V>(entries: Seq<(K, V)>, key: K) -> Seq<(K, V)> {
    if has_key(entries, key) {
        entries.remove(rank(entries, key))
    } else {
        entries
    }
}

/// The entries after a read of `key`: its entry, if there is one, has moved
/// to the front, and the others have kept their order.
pub open spec fn touched<K, V>(entries: Seq<(K, V)>, key: K) -> Seq<(K, V)> {
    if has_key(entries, key) {
        seq![entries[rank(entries, key)]] + entries.remove(rank(entries, key))
    } else {
        entries
    }
}

/// The entries after `value` was stored under `key`: the new entry is at the
/// front, an earlier entry with that key is gone, and the others have kept
/// their order.
pub open spec fn inserted<K, V>(entries: Seq<(K, V)>, key: K, value: V) -> Seq<(K, V)> {
    seq![(key, value)] + without(entries, key)
}

/// The values of the entries, in the entries' order.
pub open spec fn values<K, V>(entries: Seq<(K, V)>) -> Seq<V> {
    entries.map_values(|entry: (K, V)| entry.1)
}

/// A key-value store that keeps its entries in the order of their last use.
///
/// Its view is the sequence of entries, the most recently used one first.
pub struct LRU<K, V> {
    cache: HashMap<K, usize>,
    list: DoubleLink<(K, V)>,
}

impl<K, V> View for LRU<K, V> {
    type V = Seq<(K, V)>;

    closed spec fn view(&self) -> Seq<(K, V)> {
        self.list@
    }
}

impl<K: Eq + Hash + Copy, V> LRU<K, V> {
    /// The index: which list handle each key is filed under.
    pub closed spec fn index(&self) -> Map<K, usize> {
        self.cache@
    }

    /// The recency list.
    pub closed spec fn recency(&self) -> DoubleLink<(K, V)> {
        self.list
    }

    /// The invariant of the store: index and list are in step, and no key
    /// occurs twice.
    pub open spec fn well_formed(&self) -> bool {
        &&& self.synced()
        &&& distinct_keys(self@)
    }

    /// The index files every entry of the list under its key, with the
    /// entry's handle, and holds nothing else.
    pub closed spec fn synced(&self) -> bool {
        &&& obeys_key_model::<K>()
        &&& self.list.well_formed()
        &&& forall|i: int|
            0 <= i < self.list@.len() ==> self.cache@.contains_key((#[trigger] self.list@[i]).0)
                && self.cache@[self.list@[i].0] == self.list.handles()[i]
        &&& forall|k: K| #[trigger] self.cache@.contains_key(k) ==> has_key(self.list@, k)
    }

    /// The recency list holds exactly the entries, and the index holds
    /// exactly their keys, each with the handle of its entry.
    pub proof fn lemma_index_and_list(&self)
        requires
            self.well_formed(),
        ensures
            self.recency()@ == self@,
            self.recency().well_formed(),
            forall|k: K| self.index().contains_key(k) <==> has_key(self@, k),
            forall|i: int|
                0 <= i < self@.len() ==> self.index()[(#[trigger] self@[i]).0]
                    == self.recency().handles()[i],
    {
    }

    /// An empty store.
    pub fn new() -> (lru: Self)
        requires
            obeys_key_model::<K>(),
        ensures
            lru.well_formed(),
            lru@ == Seq::<(K, V)>::empty(),
    {
        LRU { cache: HashMap::new(), list: DoubleLink::new() }
    }

    /// The handle that the index holds for `key`.
    fn handle_of(&self, key: &K) -> (handle: Option<usize>)
        requires
            self.well_formed(),
        ensures
            handle == (if has_key(self@, *key) {
                Some(self.list.handles()[rank(self@, *key)])
            } else {
                None
            }),
    {
        match self.cache.get(key) {
            Some(handle) => Some(*handle),
            None => None,
        }
    }

    /// Takes the entry that the handle `h` names out of the list and out of
    /// the index, and returns it.
    fn remove_node(&mut self, h: usize) -> (entry: (K, V))
        requires
            old(self).well_formed(),
            old(self).list.handles().contains(h),
        ensures
            final(self).well_formed(),
            entry == old(self)@[old(self).list.handles().index_of(h)],
            final(self)@ == old(self)@.remove(old(self).list.handles().index_of(h)),
    {
        let ghost before = *self;
        let ghost at = self.list.handles().index_of(h);
        let entry = self.list.unlink(h);
        self.cache.remove(&entry.0);
        proof {
            assert forall|k: K| #[trigger] self.cache@.contains_key(k) implies
                has_key(self.list@, k) by {
                let j = rank(before.list@, k);
                let i = if j < at { j } else { j - 1 };
                assert(self.list@[i] == before.list@[j]);
            }
        }
        entry
    }

    /// Takes the entry that the handle `h` names out of its place in the
    /// order. With `push_front` the entry comes back in at the front, under
    /// the same handle; without, it leaves the store.
    fn splice_node(&mut self, h: usize, push_front: bool)
        requires
            old(self).well_formed(),
            old(self).list.handles().contains(h),
        ensures
            final(self).well_formed(),
            push_front ==> final(self)@ == seq![old(self)@[old(self).list.handles().index_of(h)]]
                + old(self)@.remove(old(self).list.handles().index_of(h)),
            !push_front ==> final(self)@ == old(self)@.remove(old(self).list.handles().index_of(h)),
            push_front ==> final(self).cache@ == old(self).cache@,
    {
        if push_front {
            let ghost before = *self;
            let ghost at = self.list.handles().index_of(h);
            self.list.promote(h);
            proof {
                assert forall|k: K| #[trigger] self.cache@.contains_key(k) implies
                    has_key(self.list@, k) by {
                    let j = rank(before.list@, k);
                    let i = if j == at { 0 } else if j < at { j + 1 } else { j };
                    assert(self.list@[i] == before.list@[j]);
                }
            }
        } else {
            let _ = self.remove_node(h);
        }
    }

    /// Puts a new entry at the front. The key must not be in the store.
    fn push(&mut self, key: K, value: V)
        requires
            old(self).well_formed(),
            !has_key(old(self)@, key),
        ensures
            final(self).well_formed(),
            final(self)@ == seq![(key, value)] + old(self)@,
    {
        let ghost before = *self;
        self.list.push_head((key, value));
        let h = self.list.head_handle().unwrap();
        self.cache.insert(key, h);
        proof {
            assert forall|k: K| #[trigger] self.cache@.contains_key(k) implies
                has_key(self.list@, k) by {
                if k == key {
                    assert(self.list@[0].0 == key);
                } else {
                    let j = rank(before.list@, k);
                    assert(self.list@[j + 1] == before.list@[j]);
                }
            }
        }
    }

    /// Stores `value` under `key` and makes that entry the most recently
    /// used one. An entry that was stored under `key` before is replaced.
    pub fn set(&mut self, key: K, value: V) -> (lru: &mut Self)
        requires
            old(self).well_formed(),
        ensures
            lru.well_formed(),
            lru@ == inserted(old(self)@, key, value),
            *final(lru) == *final(self),
    {
        if let Some(h) = self.handle_of(&key) {
            self.splice_node(h, false);
        }
        self.push(key, value);
        self
    }

    /// Looks `key` up. A hit makes the entry the most recently used one and
    /// returns its value; a miss changes nothing. Either way the index stays
    /// as it is: every key keeps its handle, and no entry leaves.
    pub fn get(&mut self, key: &K) -> (value: Option<&V>)
        requires
            old(self).well_formed(),
        ensures
            final(self).well_formed(),
            final(self)@ == touched(old(self)@, *key),
            final(self)@.len() == old(self)@.len(),
            final(self).index() == old(self).index(),
            value == match value_of(old(self)@, *key) {
                Some(v) => Some(&v),
                None => None,
            },
    {
        match self.handle_of(key) {
            Some(h) => {
                self.splice_node(h, true);
                Some(&self.list.get(h).1)
            },
            None => None,
        }
    }

    /// Removes the most recently used entry and returns its value; `None`
    /// on an empty store.
    pub fn pop_front(&mut self) -> (value: Option<V>)
        requires
            old(self).well_formed(),
        ensures
            final(self).well_formed(),
            old(self)@.len() == 0 ==> value is None && final(self)@ == old(self)@,
            old(self)@.len() > 0 ==> ({
                &&& value == Some(old(self)@.first().1)
                &&& final(self)@ == old(self)@.drop_first()
            }),
    {
        match self.list.head_handle() {
            Some(h) => {
                let entry = self.remove_node(h);
                Some(entry.1)
            },
            None => None,
        }
    }

    /// Removes the least recently used entry and returns its value; `None`
    /// on an empty store.
    pub fn pop_back(&mut self) -> (value: Option<V>)
        requires
            old(self).well_formed(),
        ensures
            final(self).well_formed(),
            old(self)@.len() == 0 ==> value is None && final(self)@ == old(self)@,
            old(self)@.len() > 0 ==> ({
                &&& value == Some(old(self)@.last().1)
                &&& final(self)@ == old(self)@.drop_last()
            }),
    {
        match self.list.tail_handle() {
            Some(h) => {
                let entry = self.remove_node(h);
                Some(entry.1)
            },
            None => None,
        }
    }

    /// The value of the most recently used entry, if there is one. The
    /// look does not count as a use.
    pub fn peek_front(&self) -> (value: Option<&V>)
        requires
            self.well_formed(),
        ensures
            value == (if self@.len() == 0 { None } else { Some(&self@.first().1) }),
    {
        match self.list.peek_head() {
            Some(entry) => Some(&entry.1),
            None => None,
        }
    }

    /// The value of the least recently used entry, if there is one. The
    /// look does not count as a use.
    pub fn peek_back(&self) -> (value: Option<&V>)
        requires
            self.well_formed(),
        ensures
            value == (if self@.len() == 0 { None } else { Some(&self@.last().1) }),
    {
        match self.list.peek_tail() {
            Some(entry) => Some(&entry.1),
            None => None,
        }
    }

    /// The number of entries, as the index counts them.
    pub fn len(&self) -> (n: usize)
        requires
            self.well_formed(),
        ensures
            n == self@.len(),
            n == self.index().len(),
    {
        proof {
            self.lemma_sizes_agree();
        }
        self.cache.len()
    }

    /// The recency list, for reading.
    pub fn list(&self) -> (list: &DoubleLink<(K, V)>)
        ensures
            *list == self.recency(),
    {
        &self.list
    }

    /// Gives up the index and hands out the recency list, which holds the
    /// entries from the most recently used to the least recently used.
    pub fn into_list(self) -> (list: DoubleLink<(K, V)>)
        requires
            self.well_formed(),
        ensures
            list.well_formed(),
            list@ == self@,
    {
        self.list
    }

    /// The index holds as many keys as a walk along the recency list meets
    /// nodes, from the head to the tail or from the tail to the head.
    pub proof fn lemma_sizes_agree(&self)
        requires
            self.well_formed(),
        ensures
            self.index().len() == self@.len(),
            self.recency().forward_walk().len() == self@.len(),
            self.recency().backward_walk().len() == self@.len(),
    {
        self.list.lemma_walks_agree();
        let keys = self@.map_values(|entry: (K, V)| entry.0);
        assert(keys.to_set() =~= self.cache@.dom()) by {
            assert forall|k: K| keys.to_set().contains(k) <==> self.cache@.dom().contains(k) by {
                if self.cache@.dom().contains(k) {
                    let i = rank(self@, k);
                    assert(keys[i] == k);
                }
            }
        }
        keys.unique_seq_to_set();
    }
}

/// Where each key occurs once, the entry at a position is the one that its
/// key is looked up to.
pub proof fn lemma_rank_of_entry<K, V>(entries: Seq<(K, V)>, at: int)
    requires
        distinct_keys(entries),
        0 <= at < entries.len(),
    ensures
        has_key(entries, entries[at].0),
        rank(entries, entries[at].0) == at,
        value_of(entries, entries[at].0) == Some(entries[at].1),
{
    let found = rank(entries, entries[at].0);
    assert(entries[found].0 == entries[at].0);
}

/// What `inserted` does to the keys and values: `key` now has `value`,
/// every other key is kept with its value, and no key occurs twice.
pub proof fn lemma_inserted<K, V>(entries: Seq<(K, V)>, key: K, value: V)
    requires
        distinct_keys(entries),
    ensures
        distinct_keys(inserted(entries, key, value)),
        inserted(entries, key, value).len() == entries.len() + (if has_key(entries, key) {
            0int
        } else {
            1int
        }),
        value_of(inserted(entries, key, value), key) == Some(value),
        forall|k: K| #[trigger]
            has_key(inserted(entries, key, value), k) <==> k == key || has_key(entries, k),
        forall|k: K|
            k != key ==> #[trigger] value_of(inserted(entries, key, value), k) == value_of(
                entries,
                k,
            ),
{
    let after = inserted(entries, key, value);
    let at = rank(entries, key);
    lemma_rank_of_entry(after, 0);
    assert forall|k: K| k != key implies (#[trigger] has_key(after, k) <==> has_key(entries, k))
        && value_of(after, k) == value_of(entries, k) by {
        if has_key(entries, k) {
            let j = rank(entries, k);
            let i = if has_key(entries, key) && j > at { j } else { j + 1 };
            lemma_rank_of_entry(after, i);
        }
    }
}

/// What `touched` does to the keys and values: nothing. Only the order
/// changes, and the entry of `key`, if there is one, comes first.
pub proof fn lemma_touched<K, V>(entries: Seq<(K, V)>, key: K)
    requires
        distinct_keys(entries),
    ensures
        distinct_keys(touched(entries, key)),
        touched(entries, key).len() == entries.len(),
        has_key(entries, key) ==> touched(entries, key)[0] == entries[rank(entries, key)],
        forall|k: K| #[trigger] has_key(touched(entries, key), k) <==> has_key(entries, k),
        forall|k: K| #[trigger] value_of(touched(entries, key), k) == value_of(entries, k),
{
    if has_key(entries, key) {
        let at = rank(entries, key);
        let after = touched(entries, key);
        assert forall|k: K|
            (#[trigger] has_key(after, k) <==> has_key(entries, k))
            && value_of(after, k) == value_of(entries, k) by {
            if has_key(entries, k) {
                let j = rank(entries, k);
                let i = if j == at { 0 } else if j < at { j + 1 } else { j };
                lemma_rank_of_entry(after, i);
            }
        }
    }
}

} // verus!
