//! Theorems about the abstract cache: what holds after a single operation
//! and after any sequence of operations.

use crate::state::{lemma_append, lemma_evict, lemma_put, lemma_touch, CacheState};
use vstd::prelude::*;

verus! {

/// One operation on a cache.
pub enum Op<K, V> {
    /// `put(key, value)`.
    Put(K, V),
    /// `get(key)`.
    Get(K),
}

impl<K, V> CacheState<K, V> {
    /// The state after one operation.
    pub open spec fn apply(self, op: Op<K, V>) -> Self {
        match op {
            Op::Put(k, v) => self.put(k, v),
            Op::Get(k) => self.get(k),
        }
    }

    /// The state after the operations `ops`, carried out from first to last.
    pub open spec fn run(self, ops: Seq<Op<K, V>>) -> Self
        decreases ops.len(),
    {
        if ops.len() == 0 {
            self
        } else {
            self.run(ops.drop_last()).apply(ops.last())
        }
    }
}

/// Whether `op` is a `put` on the key `k`.
pub open spec fn writes<K, V>(op: Op<K, V>, k: K) -> bool {
    match op {
        Op::Put(key, _) => key == k,
        Op::Get(_) => false,
    }
}

/// Every operation keeps a consistent state consistent and keeps the
/// capacity.
pub proof fn lemma_apply_inv<K, V>(s: CacheState<K, V>, op: Op<K, V>)
    requires
        s.inv(),
    ensures
        s.apply(op).inv(),
        s.apply(op).capacity == s.capacity,
{
    match op {
        Op::Put(k, v) => lemma_put(s, k, v),
        Op::Get(k) => lemma_touch(s, k),
    }
}

/// Every sequence of operations keeps a consistent state consistent and
/// keeps the capacity.
pub proof fn lemma_run_inv<K, V>(s: CacheState<K, V>, ops: Seq<Op<K, V>>)
    requires
        s.inv(),
    ensures
        s.run(ops).inv(),
        s.run(ops).capacity == s.capacity,
    decreases ops.len(),
{
    if ops.len() > 0 {
        lemma_run_inv(s, ops.drop_last());
        lemma_apply_inv(s.run(ops.drop_last()), ops.last());
    }
}

/// Capacity bound: starting from a consistent state, after each operation of
/// any sequence of operations the number of resident keys is at most the
/// capacity. `ops.take(n)` is the sequence up to and including its `n`-th
/// operation.
pub proof fn lemma_capacity_bound<K, V>(s: CacheState<K, V>, ops: Seq<Op<K, V>>, n: int)
    requires
        s.inv(),
        0 <= n <= ops.len(),
    ensures
        s.run(ops.take(n)).len() <= s.capacity,
{
    lemma_run_inv(s, ops.take(n));
}

/// A new cache is consistent, so the capacity bound holds of every history
/// of a cache from its creation on.
pub proof fn lemma_capacity_bound_from_empty<K, V>(capacity: nat, ops: Seq<Op<K, V>>, n: int)
    requires
        0 <= n <= ops.len(),
    ensures
        CacheState::<K, V>::empty(capacity).inv(),
        CacheState::<K, V>::empty(capacity).run(ops.take(n)).len() <= capacity,
{
    let s = CacheState::<K, V>::empty(capacity);
    assert(s.entries.dom() =~= s.order.to_set());
    lemma_capacity_bound(s, ops, n);
}

/// A cache of capacity zero never retains anything.
pub proof fn lemma_zero_capacity_retains_nothing<K, V>(s: CacheState<K, V>, ops: Seq<Op<K, V>>)
    requires
        s.inv(),
        s.capacity == 0,
    ensures
        s.run(ops).len() == 0,
        forall|k: K| !s.run(ops).contains(k),
{
    lemma_run_inv(s, ops);
    let r = s.run(ops);
    assert forall|k: K| !r.contains(k) by {
        if r.contains(k) {
            assert(r.order.to_set().contains(k));
            assert(r.order.contains(k));
        }
    }
}

/// Round trip: in a cache that can hold anything, `get(k)` right after
/// `put(k, v)` finds `v`.
pub proof fn lemma_put_then_get<K, V>(s: CacheState<K, V>, k: K, v: V)
    requires
        s.inv(),
        s.capacity > 0,
    ensures
        s.put(k, v).lookup(k) == Some(v),
        s.put(k, v).get(k).lookup(k) == Some(v),
{
    lemma_put(s, k, v);
    lemma_touch(s.put(k, v), k);
}

/// An operation that is not a `put` on `k` never makes `k` resident and
/// never changes the value stored under `k`: if `k` is resident afterwards,
/// it was resident before with the same value.
pub proof fn lemma_apply_keeps_value<K, V>(s: CacheState<K, V>, op: Op<K, V>, k: K)
    requires
        s.inv(),
        !writes(op, k),
        s.apply(op).contains(k),
    ensures
        s.contains(k),
        s.apply(op).lookup(k) == s.lookup(k),
{
    match op {
        Op::Put(key, value) => {
            if s.capacity == 0 {
            } else if s.contains(key) {
                lemma_touch(s, key);
            } else if s.len() == s.capacity {
                lemma_evict(s);
                lemma_append(s.evict(), key, value);
            } else {
                lemma_append(s, key, value);
            }
        },
        Op::Get(key) => {
            lemma_touch(s, key);
        },
    }
}

/// Round trip over a history: after `put(k, v)` and any further operations,
/// none of them a `put` on `k`, either `k` has been evicted or `get(k)`
/// still finds `v`.
pub proof fn lemma_round_trip<K, V>(s: CacheState<K, V>, k: K, v: V, ops: Seq<Op<K, V>>)
    requires
        s.inv(),
        forall|i: int| 0 <= i < ops.len() ==> !writes(#[trigger] ops[i], k),
        s.put(k, v).run(ops).contains(k),
    ensures
        s.put(k, v).run(ops).lookup(k) == Some(v),
    decreases ops.len(),
{
    lemma_put(s, k, v);
    let start = s.put(k, v);
    if ops.len() == 0 {
        assert(start.capacity > 0) by {
            if start.capacity == 0 {
                assert(start.order.to_set().contains(k));
                assert(start.order.contains(k));
            }
        }
    } else {
        let before = start.run(ops.drop_last());
        lemma_run_inv(start, ops.drop_last());
        lemma_apply_keeps_value(before, ops.last(), k);
        assert forall|i: int| 0 <= i < ops.drop_last().len() implies !writes(
            #[trigger] ops.drop_last()[i],
            k,
        ) by {
            assert(ops.drop_last()[i] == ops[i]);
        }
        lemma_round_trip(s, k, v, ops.drop_last());
    }
}

/// Overwriting does not evict: a `put` on a resident key keeps the set of
/// resident keys and their number, stores the new value under that key and
/// leaves every other value as it was.
pub proof fn lemma_overwrite_keeps_keys<K, V>(s: CacheState<K, V>, k: K, v: V)
    requires
        s.inv(),
        s.contains(k),
    ensures
        s.put(k, v).entries.dom() == s.entries.dom(),
        s.put(k, v).len() == s.len(),
        s.put(k, v).lookup(k) == Some(v),
        forall|x: K| x != k ==> s.put(k, v).lookup(x) == s.lookup(x),
{
    assert(s.capacity > 0) by {
        if s.capacity == 0 {
            assert(s.order.to_set().contains(k));
            assert(s.order.contains(k));
        }
    }
    lemma_touch(s, k);
    assert(s.put(k, v).entries.dom() =~= s.entries.dom());
}

/// A miss changes nothing: `get` on an absent key finds nothing and leaves
/// the state as it was, however often it is repeated.
pub proof fn lemma_miss_changes_nothing<K, V>(s: CacheState<K, V>, k: K)
    requires
        !s.contains(k),
    ensures
        s.lookup(k) is None,
        s.get(k) == s,
        s.get(k).get(k) == s,
{
}

/// A hit refreshes recency: after `get` on a resident key that key is the
/// most recent one, and the resident keys and their values are unchanged.
pub proof fn lemma_hit_refreshes<K, V>(s: CacheState<K, V>, k: K)
    requires
        s.inv(),
        s.contains(k),
    ensures
        s.get(k).order.last() == k,
        s.get(k).entries == s.entries,
        s.get(k).len() == s.len(),
{
    lemma_touch(s, k);
}

/// Eviction takes the least recently touched key and no other: a `put` of
/// an absent key into a full cache removes exactly the key at the stale end
/// of the recency order and adds the new key.
pub proof fn lemma_put_evicts_oldest<K, V>(s: CacheState<K, V>, k: K, v: V)
    requires
        s.inv(),
        s.capacity > 0,
        !s.contains(k),
        s.len() == s.capacity,
    ensures
        s.put(k, v).entries.dom() == s.entries.dom().remove(s.order.first()).insert(k),
        !s.put(k, v).contains(s.order.first()),
        s.put(k, v).len() == s.capacity,
        forall|x: K| x != k && x != s.order.first() ==> s.put(k, v).lookup(x) == s.lookup(x),
{
    lemma_evict(s);
    lemma_append(s.evict(), k, v);
    assert(s.order.to_set().contains(s.order.first())) by {
        assert(s.order[0] == s.order.first());
        assert(s.order.contains(s.order.first()));
    }
    assert(s.put(k, v).entries.dom() =~= s.entries.dom().remove(s.order.first()).insert(k));
}

/// A key that was just found is safe from the next eviction: after a hit on
/// `a` in a cache that holds at least two keys, a `put` of an absent key
/// leaves `a` resident with its value.
pub proof fn lemma_hit_survives_next_put<K, V>(s: CacheState<K, V>, a: K, k: K, v: V)
    requires
        s.inv(),
        s.contains(a),
        s.len() >= 2,
        !s.contains(k),
    ensures
        s.get(a).put(k, v).lookup(a) == s.lookup(a),
{
    lemma_touch(s, a);
    let t = s.get(a);
    assert(t.order.first() != a) by {
        assert(t.order.last() == a);
        assert(t.order[0] != t.order[t.order.len() - 1]);
    }
    if t.len() == t.capacity {
        lemma_put_evicts_oldest(t, k, v);
    } else {
        lemma_append(t, k, v);
    }
}

/// The operations `put(k, v)` for each `(k, v)` of `entries`, in order.
pub open spec fn puts<K, V>(entries: Seq<(K, V)>) -> Seq<Op<K, V>> {
    Seq::new(entries.len(), |i: int| Op::Put(entries[i].0, entries[i].1))
}

/// Whether no key occurs twice in `entries`.
pub open spec fn distinct_keys<K, V>(entries: Seq<(K, V)>) -> bool {
    forall|i: int, j: int| 0 <= i < j < entries.len() ==> entries[i].0 != entries[j].0
}

/// The number of entries that have left a cache of the given capacity
/// after `count` entries with distinct keys were put into it.
pub open spec fn evicted_count(capacity: nat, count: nat) -> int {
    if count <= capacity {
        0
    } else {
        count - capacity
    }
}

/// A cache filled from empty by `put`s with distinct keys holds exactly the
/// most recent entries, as many as fit, in the order in which they were put:
/// the earlier ones have been evicted, first in, first out.
pub proof fn lemma_fill_order<K, V>(capacity: nat, entries: Seq<(K, V)>)
    requires
        capacity > 0,
        distinct_keys(entries),
    ensures
        ({
            let s = CacheState::<K, V>::empty(capacity).run(puts(entries));
            let gone: int = evicted_count(capacity, entries.len());
            &&& s.inv()
            &&& s.capacity == capacity
            &&& s.order.len() == entries.len() - gone
            &&& forall|i: int|
                gone <= i < entries.len() ==> s.order[i - gone] == (#[trigger] entries[i]).0
            &&& forall|i: int|
                gone <= i < entries.len() ==> s.lookup((#[trigger] entries[i]).0) == Some(
                    entries[i].1,
                )
            &&& forall|i: int| 0 <= i < gone ==> !s.contains((#[trigger] entries[i]).0)
        }),
    decreases entries.len(),
{
    let start = CacheState::<K, V>::empty(capacity);
    assert(start.entries.dom() =~= start.order.to_set());
    if entries.len() == 0 {
        assert(puts(entries).len() == 0);
    } else {
        let earlier = entries.drop_last();
        let last: int = entries.len() - 1;
        let (k, v) = entries[last];
        assert(puts(entries).drop_last() =~= puts(earlier));
        assert(puts(entries).last() == Op::Put(k, v));
        assert(distinct_keys(earlier)) by {
            assert forall|i: int, j: int| 0 <= i < j < earlier.len() implies earlier[i].0
                != earlier[j].0 by {
                assert(earlier[i] == entries[i] && earlier[j] == entries[j]);
            }
        }
        lemma_fill_order(capacity, earlier);
        let before = start.run(puts(earlier));
        let gone_before: int = evicted_count(capacity, earlier.len());
        let after = before.put(k, v);
        assert(after == start.run(puts(entries)));
        let gone: int = evicted_count(capacity, entries.len());
        assert(!before.contains(k)) by {
            if before.contains(k) {
                assert(before.order.to_set().contains(k));
                assert(before.order.contains(k));
                let p: int = before.order.index_of(k);
                assert(0 <= p < before.order.len() && before.order[p] == k);
                assert(before.order[p] == earlier[p + gone_before].0);
                assert(earlier[p + gone_before] == entries[p + gone_before]);
            }
        }
        assert forall|i: int| 0 <= i < last implies earlier[i] == #[trigger] entries[i] by {}
        if before.len() == before.capacity {
            lemma_evict(before);
            lemma_append(before.evict(), k, v);
            assert(gone == gone_before + 1);
            assert(before.order.first() == entries[gone_before].0) by {
                assert(before.order[0] == earlier[gone_before].0);
            }
            assert forall|i: int| gone <= i < entries.len() implies after.order[i - gone] == (
            #[trigger] entries[i]).0 by {
                if i < last {
                    assert(after.order[i - gone] == before.order[i - gone_before]);
                    assert(earlier[i] == entries[i]);
                }
            }
            assert forall|i: int| gone <= i < entries.len() implies after.lookup(
                (#[trigger] entries[i]).0,
            ) == Some(entries[i].1) by {
                if i < last {
                    assert(earlier[i] == entries[i]);
                    assert(entries[i].0 != k);
                    assert(entries[i].0 != entries[gone_before].0);
                    assert(before.evict().lookup(entries[i].0) == before.lookup(entries[i].0));
                }
            }
            assert forall|i: int| 0 <= i < gone implies !after.contains(
                (#[trigger] entries[i]).0,
            ) by {
                assert(entries[i].0 != k);
                if i < gone_before {
                    assert(earlier[i] == entries[i]);
                    assert(!before.contains(entries[i].0));
                    assert(before.evict().lookup(entries[i].0) is None);
                }
            }
        } else {
            lemma_append(before, k, v);
            assert(gone == 0 && gone_before == 0);
            assert forall|i: int| gone <= i < entries.len() implies after.order[i - gone] == (
            #[trigger] entries[i]).0 by {
                if i < last {
                    assert(after.order[i] == before.order[i]);
                    assert(earlier[i] == entries[i]);
                }
            }
            assert forall|i: int| gone <= i < entries.len() implies after.lookup(
                (#[trigger] entries[i]).0,
            ) == Some(entries[i].1) by {
                if i < last {
                    assert(earlier[i] == entries[i]);
                    assert(entries[i].0 != k);
                }
            }
        }
    }
}

/// Eviction order: after one more `put` than the capacity, all with
/// distinct keys and starting from an empty cache, the key that was put
/// first is absent and every later key is resident with its value.
pub proof fn lemma_lru_eviction_order<K, V>(capacity: nat, entries: Seq<(K, V)>)
    requires
        entries.len() == capacity + 1,
        distinct_keys(entries),
    ensures
        ({
            let s = CacheState::<K, V>::empty(capacity).run(puts(entries));
            &&& !s.contains(entries[0].0)
            &&& forall|i: int|
                1 <= i <= capacity ==> s.lookup((#[trigger] entries[i]).0) == Some(entries[i].1)
        }),
{
    let start = CacheState::<K, V>::empty(capacity);
    if capacity == 0 {
        assert(start.entries.dom() =~= start.order.to_set());
        lemma_zero_capacity_retains_nothing(start, puts(entries));
    } else {
        lemma_fill_order(capacity, entries);
        assert(evicted_count(capacity, entries.len()) == 1);
    }
}

} // verus!
