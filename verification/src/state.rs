//! The abstract state of a least-recently-used cache and the effect of each
//! operation on it.

use vstd::prelude::*;

verus! {

/// What a cache is, mathematically.
///
/// `order` lists the resident keys from the least recently touched (index 0,
/// the next one to be evicted) to the most recently touched (the last
/// index). A key is touched when it is the target of a `put` or of a `get`
/// that finds it.
#[verifier::ext_equal]
#[verifier::reject_recursive_types(K)]
pub struct CacheState<K, V> {
    /// The largest number of keys that may be resident at once.
    pub capacity: nat,
    /// The resident keys, least recently touched first.
    pub order: Seq<K>,
    /// The value stored under each resident key.
    pub entries: Map<K, V>,
}

impl<K, V> CacheState<K, V> {
    /// A cache of the given capacity that holds nothing.
    pub open spec fn empty(capacity: nat) -> Self {
        CacheState { capacity, order: Seq::empty(), entries: Map::empty() }
    }

    /// The consistency conditions that every reachable state satisfies:
    /// no key is listed twice in the recency order, the recency order lists
    /// exactly the keys that have a value, and the number of resident keys
    /// does not exceed the capacity.
    pub open spec fn inv(self) -> bool {
        &&& self.order.no_duplicates()
        &&& self.entries.dom() =~= self.order.to_set()
        &&& self.order.len() <= self.capacity
    }

    /// The number of resident keys.
    pub open spec fn len(self) -> nat {
        self.order.len()
    }

    /// Whether `k` is resident.
    pub open spec fn contains(self, k: K) -> bool {
        self.entries.contains_key(k)
    }

    /// The value stored under `k`, if `k` is resident.
    pub open spec fn lookup(self, k: K) -> Option<V> {
        if self.contains(k) {
            Some(self.entries[k])
        } else {
            None
        }
    }

    /// The state after `k` has been touched: if `k` is resident it leaves its
    /// old position in the recency order and becomes the most recent key;
    /// otherwise nothing changes. The stored values are never affected.
    pub open spec fn touch(self, k: K) -> Self {
        if self.contains(k) {
            CacheState { order: self.order.remove(self.order.index_of(k)).push(k), ..self }
        } else {
            self
        }
    }

    /// The state after the least recently touched entry has been dropped.
    pub open spec fn evict(self) -> Self {
        CacheState {
            order: self.order.drop_first(),
            entries: self.entries.remove(self.order.first()),
            ..self
        }
    }

    /// The state after `(k, v)` has been added as the most recent entry.
    pub open spec fn append(self, k: K, v: V) -> Self {
        CacheState { order: self.order.push(k), entries: self.entries.insert(k, v), ..self }
    }

    /// The state after `put(k, v)`.
    ///
    /// * A cache of capacity zero never retains anything: `put` leaves it
    ///   empty.
    /// * If `k` is resident, its value is replaced and it becomes the most
    ///   recent key; nothing is evicted.
    /// * Otherwise, if the cache is full, the least recently touched entry
    ///   is evicted first; then `(k, v)` is added as the most recent entry.
    pub open spec fn put(self, k: K, v: V) -> Self {
        if self.capacity == 0 {
            self
        } else if self.contains(k) {
            let touched = self.touch(k);
            CacheState { entries: touched.entries.insert(k, v), ..touched }
        } else if self.len() == self.capacity {
            self.evict().append(k, v)
        } else {
            self.append(k, v)
        }
    }

    /// The state after `get(k)`: a hit refreshes the recency of `k`, a miss
    /// changes nothing.
    pub open spec fn get(self, k: K) -> Self {
        self.touch(k)
    }
}

/// `touch` keeps a consistent state consistent, keeps the set of resident
/// keys and every stored value, and leaves a resident `k` at the recent end.
pub proof fn lemma_touch<K, V>(s: CacheState<K, V>, k: K)
    requires
        s.inv(),
    ensures
        s.touch(k).inv(),
        s.touch(k).entries == s.entries,
        s.touch(k).capacity == s.capacity,
        s.touch(k).len() == s.len(),
        s.contains(k) ==> s.touch(k).order.last() == k,
        !s.contains(k) ==> s.touch(k) == s,
{
    if s.contains(k) {
        let i: int = s.order.index_of(k);
        assert(s.order.to_set().contains(k));
        assert(s.order.contains(k));
        assert(0 <= i < s.order.len() && s.order[i] == k);
        let removed = s.order.remove(i);
        let t = s.touch(k);
        assert(t.order == removed.push(k));
        assert forall|a: int, b: int|
            0 <= a < t.order.len() && 0 <= b < t.order.len() && a != b implies t.order[a]
            != t.order[b] by {
            let oa: int = if a == removed.len() { i } else if a < i { a } else { a + 1 };
            let ob: int = if b == removed.len() { i } else if b < i { b } else { b + 1 };
            assert(t.order[a] == s.order[oa]);
            assert(t.order[b] == s.order[ob]);
            assert(oa != ob);
        }
        assert forall|x: K| t.order.to_set().contains(x) <==> s.order.to_set().contains(x) by {
            if s.order.to_set().contains(x) {
                let j: int = s.order.index_of(x);
                assert(s.order.contains(x));
                assert(0 <= j < s.order.len() && s.order[j] == x);
                if j == i {
                    assert(t.order[removed.len() as int] == x);
                } else if j < i {
                    assert(t.order[j] == x);
                } else {
                    assert(t.order[j - 1] == x);
                }
                assert(t.order.contains(x));
            }
            if t.order.to_set().contains(x) {
                assert(t.order.contains(x));
                let a: int = t.order.index_of(x);
                assert(0 <= a < t.order.len() && t.order[a] == x);
                let oa: int = if a == removed.len() { i } else if a < i { a } else { a + 1 };
                assert(s.order[oa] == x);
                assert(s.order.contains(x));
            }
        }
        assert(t.order.to_set() =~= s.order.to_set());
    }
}

/// Dropping the least recently touched entry of a consistent, non-empty
/// state gives a consistent state with one key fewer.
pub proof fn lemma_evict<K, V>(s: CacheState<K, V>)
    requires
        s.inv(),
        s.len() > 0,
    ensures
        s.evict().inv(),
        s.evict().len() == s.len() - 1,
        !s.evict().contains(s.order.first()),
        forall|x: K| x != s.order.first() ==> s.evict().lookup(x) == s.lookup(x),
{
    let e = s.evict();
    let oldest = s.order.first();
    assert forall|x: K| e.order.to_set().contains(x) <==> (s.order.to_set().contains(x) && x
        != oldest) by {
        if e.order.to_set().contains(x) {
            assert(e.order.contains(x));
            let a: int = e.order.index_of(x);
            assert(0 <= a < e.order.len() && e.order[a] == x);
            assert(s.order[a + 1] == x);
            assert(s.order.contains(x));
        }
        if s.order.to_set().contains(x) && x != oldest {
            assert(s.order.contains(x));
            let j: int = s.order.index_of(x);
            assert(0 <= j < s.order.len() && s.order[j] == x);
            assert(e.order[j - 1] == x);
            assert(e.order.contains(x));
        }
    }
    assert(e.entries.dom() =~= e.order.to_set());
}

/// Adding an absent key to a consistent state that is not full gives a
/// consistent state with that key at the recent end.
pub proof fn lemma_append<K, V>(s: CacheState<K, V>, k: K, v: V)
    requires
        s.inv(),
        !s.contains(k),
        s.len() < s.capacity,
    ensures
        s.append(k, v).inv(),
        s.append(k, v).len() == s.len() + 1,
        s.append(k, v).order.last() == k,
        s.append(k, v).lookup(k) == Some(v),
        forall|x: K| x != k ==> s.append(k, v).lookup(x) == s.lookup(x),
{
    let a = s.append(k, v);
    assert(!s.order.contains(k)) by {
        if s.order.contains(k) {
            assert(s.order.to_set().contains(k));
        }
    }
    assert forall|x: K| a.order.to_set().contains(x) <==> (s.order.to_set().contains(x) || x
        == k) by {
        if a.order.to_set().contains(x) {
            assert(a.order.contains(x));
            let i: int = a.order.index_of(x);
            assert(0 <= i < a.order.len() && a.order[i] == x);
            if i < s.order.len() {
                assert(s.order[i] == x);
                assert(s.order.contains(x));
            }
        }
        if s.order.to_set().contains(x) {
            assert(s.order.contains(x));
            let j: int = s.order.index_of(x);
            assert(0 <= j < s.order.len() && s.order[j] == x);
            assert(a.order[j] == x);
            assert(a.order.contains(x));
        }
        if x == k {
            assert(a.order[s.order.len() as int] == x);
            assert(a.order.contains(x));
        }
    }
    assert(a.entries.dom() =~= a.order.to_set());
}

/// `put` keeps a consistent state consistent and never changes the capacity.
/// In a cache that can hold anything, the key that was put is afterwards
/// resident with the new value and is the most recent key.
pub proof fn lemma_put<K, V>(s: CacheState<K, V>, k: K, v: V)
    requires
        s.inv(),
    ensures
        s.put(k, v).inv(),
        s.put(k, v).capacity == s.capacity,
        s.capacity > 0 ==> s.put(k, v).lookup(k) == Some(v),
        s.capacity > 0 ==> s.put(k, v).order.last() == k,
{
    if s.capacity == 0 {
    } else if s.contains(k) {
        lemma_touch(s, k);
        let t = s.touch(k);
        assert(t.entries.insert(k, v).dom() =~= t.entries.dom());
    } else if s.len() == s.capacity {
        lemma_evict(s);
        lemma_append(s.evict(), k, v);
    } else {
        lemma_append(s, k, v);
    }
}

} // verus!
