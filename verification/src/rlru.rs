use crate::double_link::DoubleLink;
use crate::{has_key, inserted, rank, touched, value_of, values, LRU};
use crate::{lemma_inserted, lemma_touched};
use std::hash::Hash;
use vstd::prelude::*;
use vstd::std_specs::hash::obeys_key_model;

verus! {

/// The first `max_length` of the entries: what is left once the least
/// recently used entries beyond the capacity are gone.
pub open spec fn capped<K, V>(entries: Seq<(K, V)>, max_length: nat) -> Seq<(K, V)> {
    if entries.len() > max_length {
        entries.take(max_length as int)
    } else {
        entries
    }
}

/// A cache of bounded capacity that evicts the least recently used entry.
///
/// Its view is the sequence of entries, the most recently used one first.
pub struct Rlru<K, V> {
    store: LRU<K, V>,
    max_length: u64,
}

impl<K, V> View for Rlru<K, V> {
    type V = Seq<(K, V)>;

    open spec fn view(&self) -> Seq<(K, V)> {
        self.store()@
    }
}

impl<K, V> Rlru<K, V> {
    /// The capacity: the number of entries that the cache never exceeds.
    pub closed spec fn max_length(&self) -> u64 {
        self.max_length
    }

    /// The store of the entries, which may hold more than the capacity
    /// while an insertion is under way.
    pub closed spec fn store(&self) -> LRU<K, V> {
        self.store
    }
}

impl<K: Eq + Hash + Copy, V> Rlru<K, V> {
    /// The invariant of the cache: that of its store, and no more entries
    /// than the capacity.
    pub open spec fn well_formed(&self) -> bool {
        &&& self.store().well_formed()
        &&& self@.len() <= self.max_length()
    }

    /// An empty cache that holds up to `max_length` entries.
    pub fn new(max_length: u64) -> (cache: Self)
        requires
            obeys_key_model::<K>(),
        ensures
            cache.well_formed(),
            cache@ == Seq::<(K, V)>::empty(),
            cache.max_length() == max_length,
    {
        Rlru { store: LRU::new(), max_length }
    }

    /// Evicts the least recently used entry and returns its value; `None`
    /// on an empty cache.
    fn pop(&mut self) -> (value: Option<V>)
        requires
            old(self).store.well_formed(),
        ensures
            final(self).store.well_formed(),
            final(self).max_length == old(self).max_length,
            old(self)@.len() == 0 ==> value is None && final(self)@ == old(self)@,
            old(self)@.len() > 0 ==> ({
                &&& value == Some(old(self)@.last().1)
                &&& final(self)@ == old(self)@.drop_last()
            }),
    {
        self.store.pop_back()
    }

    /// Evicts least recently used entries until the cache is within its
    /// capacity.
    fn length_upkeep(&mut self) -> (cache: &mut Self)
        requires
            old(self).store.well_formed(),
        ensures
            cache.well_formed(),
            cache@ == capped(old(self)@, old(self).max_length as nat),
            cache.max_length == old(self).max_length,
            *final(cache) == *final(self),
    {
        while self.store.len() as u64 > self.max_length
            invariant
                self.store.well_formed(),
                self.max_length == old(self).max_length,
                self@.len() <= old(self)@.len(),
                self@ == old(self)@.take(self@.len() as int),
                self@.len() >= self.max_length || self@.len() == old(self)@.len(),
            decreases self@.len(),
        {
            self.pop();
        }
        self
    }

    /// Stores `elem` under `key` and makes that entry the most recently used
    /// one. An entry that was stored under `key` before is replaced, and
    /// nothing is evicted; a new key may push the least recently used entry
    /// out. With a capacity of zero the new entry itself leaves at once.
    pub fn set(&mut self, key: K, elem: V) -> (cache: &mut Self)
        requires
            old(self).well_formed(),
        ensures
            cache.well_formed(),
            cache@ == capped(inserted(old(self)@, key, elem), old(self).max_length() as nat),
            cache@.len() <= cache.max_length(),
            cache.max_length() == old(self).max_length(),
            *final(cache) == *final(self),
    {
        self.store.set(key, elem);
        self.length_upkeep()
    }

    /// Looks `key` up. A hit makes the entry the most recently used one and
    /// returns its value; a miss changes nothing. Nothing is ever evicted,
    /// and the index stays as it is: every key keeps its handle.
    pub fn get(&mut self, key: &K) -> (value: Option<&V>)
        requires
            old(self).well_formed(),
        ensures
            final(self).well_formed(),
            final(self)@ == touched(old(self)@, *key),
            final(self)@.len() == old(self)@.len(),
            final(self).store().index() == old(self).store().index(),
            final(self).max_length() == old(self).max_length(),
            value == match value_of(old(self)@, *key) {
                Some(v) => Some(&v),
                None => None,
            },
    {
        self.store.get(key)
    }

    /// Removes the most recently used entry and returns its value; `None`
    /// on an empty cache.
    pub fn pop_front(&mut self) -> (value: Option<V>)
        requires
            old(self).well_formed(),
        ensures
            final(self).well_formed(),
            final(self).max_length() == old(self).max_length(),
            old(self)@.len() == 0 ==> value is None && final(self)@ == old(self)@,
            old(self)@.len() > 0 ==> ({
                &&& value == Some(old(self)@.first().1)
                &&& final(self)@ == old(self)@.drop_first()
            }),
    {
        self.store.pop_front()
    }

    /// Removes the least recently used entry and returns its value; `None`
    /// on an empty cache.
    pub fn pop_back(&mut self) -> (value: Option<V>)
        requires
            old(self).well_formed(),
        ensures
            final(self).well_formed(),
            final(self).max_length() == old(self).max_length(),
            old(self)@.len() == 0 ==> value is None && final(self)@ == old(self)@,
            old(self)@.len() > 0 ==> ({
                &&& value == Some(old(self)@.last().1)
                &&& final(self)@ == old(self)@.drop_last()
            }),
    {
        self.pop()
    }

    /// The value of the most recently used entry, if there is one. The
    /// look does not count as a use.
    pub fn peek_front(&self) -> (value: Option<&V>)
        requires
            self.well_formed(),
        ensures
            value == (if self@.len() == 0 { None } else { Some(&self@.first().1) }),
    {
        self.store.peek_front()
    }

    /// The value of the least recently used entry, if there is one. The
    /// look does not count as a use.
    pub fn peek_back(&self) -> (value: Option<&V>)
        requires
            self.well_formed(),
        ensures
            value == (if self@.len() == 0 { None } else { Some(&self@.last().1) }),
    {
        self.store.peek_back()
    }

    /// The number of entries.
    pub fn len(&self) -> (n: usize)
        requires
            self.well_formed(),
        ensures
            n == self@.len(),
            n <= self.max_length(),
    {
        self.store.len()
    }

    /// Turns the cache into an iterator that hands out the values from the
    /// most recently used to the least recently used.
    pub fn into_iter(self) -> (iter: IntoIter<K, V>)
        requires
            self.well_formed(),
        ensures
            iter.well_formed(),
            iter@ == values(self@),
    {
        IntoIter { rest: self.store.into_list() }
    }

    /// The index holds as many keys as the cache has entries, and a walk
    /// along the recency list meets as many nodes, from the head to the tail
    /// or from the tail to the head.
    pub proof fn lemma_sizes_agree(&self)
        requires
            self.well_formed(),
        ensures
            self.store().index().len() == self@.len(),
            self.store().recency().forward_walk().len() == self@.len(),
            self.store().recency().backward_walk().len() == self@.len(),
    {
        self.store.lemma_sizes_agree();
    }

    /// After `set(key, elem)` on a cache with room for at least one entry,
    /// a drain hands out `elem` first.
    pub proof fn lemma_set_value_comes_first(&self, key: K, elem: V)
        requires
            self.well_formed(),
            self.max_length() >= 1,
        ensures
            values(capped(inserted(self@, key, elem), self.max_length() as nat)).len() >= 1,
            values(capped(inserted(self@, key, elem), self.max_length() as nat))[0] == elem,
    {
    }

    /// A read of `key` moves its entry to the front, and the eviction that a
    /// following `set` causes, if any, takes the entry that then is last:
    /// every other key stays, and so does `key` itself unless it was the
    /// only one.
    pub proof fn lemma_read_shields_from_eviction(&self, key: K, other: K, elem: V)
        requires
            self.well_formed(),
            has_key(self@, key),
        ensures
            touched(self@, key)[0].0 == key,
            value_of(touched(self@, key), key) == value_of(self@, key),
            forall|k: K|
                has_key(self@, k) && k != touched(self@, key).last().0 ==> #[trigger] has_key(
                    capped(inserted(touched(self@, key), other, elem), self.max_length() as nat),
                    k,
                ),
            self@.len() >= 2 ==> has_key(
                capped(inserted(touched(self@, key), other, elem), self.max_length() as nat),
                key,
            ),
    {
        let read = touched(self@, key);
        lemma_touched(self@, key);
        lemma_inserted(read, other, elem);
        let grown = inserted(read, other, elem);
        let after = capped(grown, self.max_length() as nat);
        if !has_key(read, other) {
            assert forall|k: K| has_key(self@, k) && k != read.last().0 implies #[trigger] has_key(
                after,
                k,
            ) by {
                assert(has_key(read, k));
                let i = rank(read, k);
                assert(after[i + 1] == read[i]);
            }
        }
    }

    /// A `set` on a key that the cache holds replaces the value and nothing
    /// else: the size stays, no key leaves or comes, and every other key
    /// keeps its value.
    pub proof fn lemma_update_keeps_size_and_keys(&self, key: K, elem: V)
        requires
            self.well_formed(),
            has_key(self@, key),
        ensures
            capped(inserted(self@, key, elem), self.max_length() as nat) == inserted(
                self@,
                key,
                elem,
            ),
            inserted(self@, key, elem).len() == self@.len(),
            forall|k: K| #[trigger] has_key(inserted(self@, key, elem), k) <==> has_key(self@, k),
            value_of(inserted(self@, key, elem), key) == Some(elem),
            forall|k: K|
                k != key ==> #[trigger] value_of(inserted(self@, key, elem), k) == value_of(
                    self@,
                    k,
                ),
    {
        lemma_inserted(self@, key, elem);
    }
}

/// What is left of a cache that is being drained from the front.
pub struct IntoIter<K, V> {
    rest: DoubleLink<(K, V)>,
}

impl<K, V> View for IntoIter<K, V> {
    type V = Seq<V>;

    /// The values not yet handed out, the next one first.
    closed spec fn view(&self) -> Seq<V> {
        values(self.rest@)
    }
}

impl<K, V> IntoIter<K, V> {
    /// The invariant of the iterator: that of the list it drains.
    pub closed spec fn well_formed(&self) -> bool {
        self.rest.well_formed()
    }

    /// Hands out the next value; `None` once the cache is drained.
    pub fn next(&mut self) -> (value: Option<V>)
        requires
            old(self).well_formed(),
        ensures
            final(self).well_formed(),
            old(self)@.len() == 0 ==> value is None && final(self)@ == old(self)@,
            old(self)@.len() > 0 ==> ({
                &&& value == Some(old(self)@[0])
                &&& final(self)@ == old(self)@.drop_first()
            }),
    {
        match self.rest.pop_head() {
            Some(entry) => Some(entry.1),
            None => None,
        }
    }

    /// Drains what is left into a vector, in order.
    pub fn collect(self) -> (drained: Vec<V>)
        requires
            self.well_formed(),
        ensures
            drained@ == self@,
    {
        let mut iter = self;
        let mut drained: Vec<V> = Vec::new();
        loop
            invariant
                iter.well_formed(),
                drained@ + iter@ == self@,
            ensures
                drained@ == self@,
            decreases iter@.len(),
        {
            match iter.next() {
                Some(value) => {
                    drained.push(value);
                },
                None => {
                    break;
                },
            }
        }
        drained
    }
}

} // verus!
