//! A cache that keeps its values in a hash map and the recency order of its
//! keys in a double-ended queue.
//!
//! Looking a key up in the map takes constant time on average. Moving a key
//! to the recent end of the queue takes time linear in the number of
//! resident keys, because the key's old position has to be found first.

use crate::state::{lemma_put, lemma_touch, CacheState};
use std::collections::HashMap;
use std::collections::VecDeque;
use std::hash::Hash;
use vstd::laws_eq::obeys_concrete_eq;
use vstd::pervasive::strictly_cloned;
use vstd::prelude::*;
use vstd::std_specs::hash::obeys_key_model;

verus! {

/// What the cache needs of its key type: hashing and `==` agree with
/// mathematical equality of keys, and a clone of a key equals the key.
///
/// The integer types and `bool` satisfy this without further proof.
pub open spec fn lawful_key<Key: Eq + Hash + Clone>() -> bool {
    &&& obeys_key_model::<Key>()
    &&& obeys_concrete_eq::<Key>()
    &&& forall|a: Key, b: Key| #[trigger] strictly_cloned(a, b) ==> a == b
}

/// `order` with `key` taken out, for an order that lists no key twice.
spec fn without<Key>(order: Seq<Key>, key: Key) -> Seq<Key> {
    if order.contains(key) {
        order.remove(order.index_of(key))
    } else {
        order
    }
}

/// Takes `key` out of the recency order, if it is there, and keeps the
/// other keys in their order.
fn remove_key<Key: Eq>(index: &mut VecDeque<Key>, key: &Key)
    requires
        obeys_concrete_eq::<Key>(),
        old(index)@.no_duplicates(),
    ensures
        final(index)@ == without(old(index)@, *key),
{
    let mut i: usize = 0;
    while i < index.len()
        invariant
            i <= index@.len(),
            index@ == old(index)@,
            obeys_concrete_eq::<Key>(),
            index@.no_duplicates(),
            forall|j: int| 0 <= j < i ==> index@[j] != *key,
        decreases index@.len() - i,
    {
        proof {
            reveal(obeys_concrete_eq);
        }
        if index[i] == *key {
            assert(index@.contains(*key));
            index.remove(i);
            return ;
        }
        i += 1;
    }
    assert(!index@.contains(*key));
}

/// A fixed-capacity cache with least-recently-used eviction.
///
/// A cache created with capacity zero accepts every call and never retains
/// anything.
pub struct Cache<Key, Value> {
    capacity: usize,
    index: VecDeque<Key>,
    cache: HashMap<Key, Value>,
}

impl<Key, Value> View for Cache<Key, Value> {
    type V = CacheState<Key, Value>;

    closed spec fn view(&self) -> CacheState<Key, Value> {
        CacheState { capacity: self.capacity as nat, order: self.index@, entries: self.cache@ }
    }
}

impl<Key, Value> Cache<Key, Value> where Key: Eq + Hash + Clone {
    /// Validity of a cache: its key type is lawful and its abstract state is
    /// consistent. `new` establishes it and every method preserves it.
    pub open spec fn wf(&self) -> bool {
        &&& lawful_key::<Key>()
        &&& self@.inv()
    }

    /// Creates an empty cache that holds at most `capacity` keys.
    pub fn new(capacity: usize) -> (cache: Self)
        requires
            lawful_key::<Key>(),
        ensures
            cache.wf(),
            cache@ == CacheState::<Key, Value>::empty(capacity as nat),
    {
        Self { capacity, index: VecDeque::new(), cache: HashMap::new() }
    }

    /// Stores `value` under `key` and makes `key` the most recently touched
    /// key. If `key` was absent and the cache was full, the least recently
    /// touched entry is evicted first.
    pub fn put(&mut self, key: Key, value: Value)
        requires
            old(self).wf(),
        ensures
            final(self).wf(),
            final(self)@ == old(self)@.put(key, value),
    {
        if self.capacity == 0 {
            return ;
        }
        proof {
            lemma_put(old(self)@, key, value);
            old(self)@.order.unique_seq_to_set();
        }
        if self.cache.contains_key(&key) {
            assert(old(self)@.order.contains(key));
            remove_key(&mut self.index, &key);
        } else if self.cache.len() == self.capacity {
            if let Some(old_key) = self.index.pop_front() {
                self.cache.remove(&old_key);
            }
        }
        let recent = key.clone();
        assert(strictly_cloned(key, recent));
        self.index.push_back(recent);
        self.cache.insert(key, value);
    }

    /// Looks `key` up. A hit returns the stored value and makes `key` the
    /// most recently touched key; a miss returns `None` and changes nothing.
    pub fn get(&mut self, key: Key) -> (value: Option<&Value>)
        requires
            old(self).wf(),
        ensures
            final(self).wf(),
            final(self)@ == old(self)@.get(key),
            match value {
                Some(v) => old(self)@.lookup(key) == Some(*v),
                None => old(self)@.lookup(key) is None,
            },
            value is None ==> *final(self) == *old(self),
    {
        if let Some(value) = self.cache.get(&key) {
            proof {
                lemma_touch(old(self)@, key);
            }
            assert(old(self)@.order.contains(key));
            remove_key(&mut self.index, &key);
            let recent = key.clone();
            assert(strictly_cloned(key, recent));
            self.index.push_back(recent);
            return Some(value);
        }
        None
    }

    /// The number of resident keys.
    pub fn len(&self) -> (n: usize)
        requires
            self.wf(),
        ensures
            n == self@.len(),
            n <= self@.capacity,
    {
        self.index.len()
    }

    /// Whether `key` is resident. Does not touch `key`.
    pub fn contains(&self, key: &Key) -> (found: bool)
        requires
            self.wf(),
        ensures
            found == self@.contains(*key),
    {
        self.cache.contains_key(key)
    }
}

} // verus!
