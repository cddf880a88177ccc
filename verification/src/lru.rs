//! The abstract model of an LRU store and the interface traits.
//!
//! A store is modelled as a single sequence of `(key, value)` pairs ordered
//! from least- to most-recently touched: position `0` is the eviction
//! candidate and the last position is the most-recently-used entry.  Keys are
//! abstract key views and occur at most once, so the sequence describes both
//! the lookup mapping and the recency order at the same time, which is what
//! keeps the two from ever disagreeing on membership.

use vstd::prelude::*;

pub mod ephemeral;

verus! {

/// Exec-level equality on key types, tied to the key's abstract view.
///
/// A key type must be able to decide whether two keys denote the same
/// abstract key; the store compares keys only through this method.
pub trait CacheKey: View + Sized {
    /// Returns whether `self` and `other` denote the same abstract key.
    fn key_eq(&self, other: &Self) -> (r: bool)
        ensures
            r == (self@ == other@),
    ;
}

impl CacheKey for u64 {
    fn key_eq(&self, other: &Self) -> (r: bool) {
        *self == *other
    }
}

impl CacheKey for u32 {
    fn key_eq(&self, other: &Self) -> (r: bool) {
        *self == *other
    }
}

impl CacheKey for i32 {
    fn key_eq(&self, other: &Self) -> (r: bool) {
        *self == *other
    }
}

impl CacheKey for usize {
    fn key_eq(&self, other: &Self) -> (r: bool) {
        *self == *other
    }
}

impl CacheKey for String {
    fn key_eq(&self, other: &Self) -> (r: bool) {
        self.eq(other)
    }
}

/// No key view occurs twice in the sequence.
pub open spec fn distinct_keys<KV, Val>(s: Seq<(KV, Val)>) -> bool {
    forall|i: int, j: int| 0 <= i < j < s.len() ==> (#[trigger] s[i]).0 != (#[trigger] s[j]).0
}

/// Some entry of the sequence carries the key `k`.
pub open spec fn has_key<KV, Val>(s: Seq<(KV, Val)>, k: KV) -> bool {
    exists|i: int| 0 <= i < s.len() && (#[trigger] s[i]).0 == k
}

/// The position of the entry carrying the key `k`.
pub open spec fn index_of_key<KV, Val>(s: Seq<(KV, Val)>, k: KV) -> int {
    choose|i: int| 0 <= i < s.len() && (#[trigger] s[i]).0 == k
}

/// The value stored under the key `k`.
pub open spec fn value_of<KV, Val>(s: Seq<(KV, Val)>, k: KV) -> Val {
    s[index_of_key(s, k)].1
}

/// The store after touching the present key `k`: its entry leaves its old
/// position and `(k, v)` becomes the most-recently-used entry.
pub open spec fn promote<KV, Val>(s: Seq<(KV, Val)>, k: KV, v: Val) -> Seq<(KV, Val)> {
    s.remove(index_of_key(s, k)).push((k, v))
}

/// The store after evicting the least-recently-used entry (position `0`)
/// and appending the fresh entry `(k, v)` as most-recently-used.
pub open spec fn evict_push<KV, Val>(s: Seq<(KV, Val)>, k: KV, v: Val) -> Seq<(KV, Val)> {
    s.subrange(1, s.len() as int).push((k, v))
}

/// An LRU store over keys `K` and values `V`.
///
/// `entries()` is the store's abstract state: the live `(key, value)` pairs
/// from least- to most-recently touched.  `cap()` is the fixed capacity and
/// `inv()` the implementation's well-formedness condition, established by
/// construction and preserved by every operation.  The contracts pin the
/// whole state transition of each operation, so the capacity bound, the
/// recency order and the eviction choice are all forced.
pub trait LRUCache<K: CacheKey, V>: Sized {
    /// The live entries, least-recently touched first.
    spec fn entries(&self) -> Seq<(<K as View>::V, V)>;

    /// The fixed maximum number of entries.
    spec fn cap(&self) -> nat;

    /// The implementation's internal well-formedness condition.
    spec fn inv(&self) -> bool;

    /// A well-formed store is within capacity and holds each key once.
    proof fn inv_facts(&self)
        requires
            self.inv(),
        ensures
            0 < self.cap(),
            self.entries().len() <= self.cap(),
            distinct_keys(self.entries()),
    ;

    /// Inserts or updates the value under `key` and makes `key` the
    /// most-recently-used entry.
    ///
    /// On an existing key the value is overwritten in place of the recency
    /// order: no entry is evicted and the number of entries is unchanged.
    /// On a new key below capacity the entry is appended.  On a new key at
    /// capacity the least-recently-used entry (position `0`) is evicted
    /// first.  The size never exceeds the capacity.
    fn put(&mut self, key: K, value: V)
        requires
            old(self).inv(),
        ensures
            final(self).inv(),
            final(self).cap() == old(self).cap(),
            final(self).entries().len() <= final(self).cap(),
            has_key(old(self).entries(), key@) ==> {
                &&& final(self).entries() == promote(old(self).entries(), key@, value)
                &&& final(self).entries().len() == old(self).entries().len()
            },
            !has_key(old(self).entries(), key@) && old(self).entries().len() < old(self).cap()
                ==> final(self).entries() == old(self).entries().push((key@, value)),
            !has_key(old(self).entries(), key@) && old(self).entries().len() == old(self).cap()
                ==> final(self).entries() == evict_push(old(self).entries(), key@, value),
            final(self).entries().len() > 0 && final(self).entries().last() == (key@, value),
    ;

    /// Looks up `key`; on a hit, returns its value and makes `key` the
    /// most-recently-used entry.  A miss leaves the store untouched.
    fn get<'a>(&'a mut self, key: &K) -> (r: Option<&'a V>)
        requires
            old(self).inv(),
        ensures
            final(self).inv(),
            final(self).cap() == old(self).cap(),
            final(self).entries().len() == old(self).entries().len(),
            r is Some <==> has_key(old(self).entries(), key@),
            !has_key(old(self).entries(), key@) ==> final(self).entries() == old(self).entries(),
            has_key(old(self).entries(), key@) ==> {
                &&& final(self).entries() == promote(
                    old(self).entries(),
                    key@,
                    value_of(old(self).entries(), key@),
                )
                &&& (r matches Some(v) && *v == value_of(old(self).entries(), key@))
            },
    ;

    /// Returns the fixed maximum number of entries.
    fn capacity(&self) -> (r: usize)
        ensures
            r == self.cap(),
    ;
}

/// Under distinct keys, an entry with key `k` at position `i` is the only
/// one, so `i` is the position the model functions speak of.
pub proof fn lemma_key_at_index<KV, Val>(s: Seq<(KV, Val)>, k: KV, i: int)
    requires
        distinct_keys(s),
        0 <= i < s.len(),
        s[i].0 == k,
    ensures
        has_key(s, k),
        index_of_key(s, k) == i,
        value_of(s, k) == s[i].1,
{
    assert(has_key(s, k));
    let j = index_of_key(s, k);
    if j != i {
        assert(s[j].0 != s[i].0);
    }
}

/// Inserting a fresh key into a store below capacity appends it as the
/// most-recently-used entry: every present entry keeps its position and its
/// value, no entry is evicted, and the new key maps to the new value.
pub proof fn lemma_push_properties<KV, Val>(s: Seq<(KV, Val)>, k: KV, v: Val)
    requires
        distinct_keys(s),
        !has_key(s, k),
    ensures
        s.push((k, v)).len() == s.len() + 1,
        distinct_keys(s.push((k, v))),
        s.push((k, v)).last() == (k, v),
        has_key(s.push((k, v)), k),
        value_of(s.push((k, v)), k) == v,
        forall|k2: KV| #[trigger] has_key(s.push((k, v)), k2) <==> (k2 == k || has_key(s, k2)),
        forall|k2: KV|
            has_key(s, k2) ==> #[trigger] value_of(s.push((k, v)), k2) == value_of(s, k2),
{
    let t = s.push((k, v));
    let n = s.len() as int;
    assert(forall|j: int| 0 <= j < n ==> #[trigger] t[j] == s[j]);
    assert(t[n] == (k, v));
    assert forall|a: int, b: int| 0 <= a < b < t.len() implies (#[trigger] t[a]).0 != (
    #[trigger] t[b]).0 by {
        if b == n && t[a].0 == k {
            assert(s[a].0 == k);
            assert(false);
        }
    }
    lemma_key_at_index(t, k, n);
    assert forall|k2: KV| #[trigger] has_key(t, k2) implies (k2 == k || has_key(s, k2)) by {
        let j = index_of_key(t, k2);
        assert(0 <= j < t.len() && t[j].0 == k2);
        if j < n {
            assert(s[j].0 == k2);
        }
    }
    assert forall|k2: KV| k2 == k || has_key(s, k2) implies #[trigger] has_key(t, k2) by {
        if k2 != k {
            let x = index_of_key(s, k2);
            assert(0 <= x < n && s[x].0 == k2);
            assert(t[x].0 == k2);
        }
    }
    assert forall|k2: KV| has_key(s, k2) implies #[trigger] value_of(t, k2) == value_of(
        s,
        k2,
    ) by {
        let x = index_of_key(s, k2);
        assert(0 <= x < n && s[x].0 == k2);
        lemma_key_at_index(t, k2, x);
        lemma_key_at_index(s, k2, x);
    }
}

/// Touching a present key only reorders the store: the touched entry leaves
/// its position and becomes the most-recently-used one, the key now maps to
/// the touched value, and every other entry keeps its value.  No entry
/// appears or disappears, so a touch never evicts.  While at least one other
/// entry is present, the touched key does not sit in the eviction slot.
pub proof fn lemma_promote_properties<KV, Val>(s: Seq<(KV, Val)>, k: KV, v: Val)
    requires
        distinct_keys(s),
        has_key(s, k),
    ensures
        promote(s, k, v).len() == s.len(),
        distinct_keys(promote(s, k, v)),
        promote(s, k, v).last() == (k, v),
        has_key(promote(s, k, v), k),
        value_of(promote(s, k, v), k) == v,
        forall|k2: KV| #[trigger] has_key(promote(s, k, v), k2) <==> has_key(s, k2),
        forall|k2: KV|
            has_key(s, k2) && k2 != k ==> #[trigger] value_of(promote(s, k, v), k2) == value_of(
                s,
                k2,
            ),
        s.len() >= 2 ==> promote(s, k, v)[0].0 != k,
{
    let i = index_of_key(s, k);
    assert(0 <= i < s.len() && s[i].0 == k);
    let n = s.len() as int;
    let t = promote(s, k, v);
    s.remove_ensures(i);
    assert(t.len() == n);
    assert(forall|j: int| 0 <= j < i ==> #[trigger] t[j] == s[j]);
    assert(forall|j: int| i <= j < n - 1 ==> #[trigger] t[j] == s[j + 1]);
    assert(t[n - 1] == (k, v));
    assert forall|a: int, b: int| 0 <= a < b < n implies (#[trigger] t[a]).0 != (
    #[trigger] t[b]).0 by {
        let sa: int = if a < i { a } else { a + 1 };
        assert(t[a] == s[sa]);
        if b == n - 1 {
            assert(s[sa].0 != s[i].0);
        } else {
            let sb: int = if b < i { b } else { b + 1 };
            assert(t[b] == s[sb]);
            assert(s[sa].0 != s[sb].0);
        }
    }
    lemma_key_at_index(t, k, n - 1);
    assert forall|k2: KV| #[trigger] has_key(t, k2) implies has_key(s, k2) by {
        let j = index_of_key(t, k2);
        assert(0 <= j < n && t[j].0 == k2);
        if j == n - 1 {
            assert(s[i].0 == k2);
        } else {
            let sj: int = if j < i { j } else { j + 1 };
            assert(t[j] == s[sj]);
            assert(s[sj].0 == k2);
        }
    }
    assert forall|k2: KV| has_key(s, k2) implies #[trigger] has_key(t, k2) by {
        let x = index_of_key(s, k2);
        assert(0 <= x < n && s[x].0 == k2);
        if x == i {
            assert(t[n - 1].0 == k2);
        } else {
            let j: int = if x < i { x } else { x - 1 };
            assert(t[j] == s[x]);
            assert(t[j].0 == k2);
        }
    }
    assert forall|k2: KV| has_key(s, k2) && k2 != k implies #[trigger] value_of(t, k2) == value_of(
        s,
        k2,
    ) by {
        let x = index_of_key(s, k2);
        assert(0 <= x < n && s[x].0 == k2);
        assert(x != i);
        let j: int = if x < i { x } else { x - 1 };
        assert(t[j] == s[x]);
        lemma_key_at_index(t, k2, j);
        lemma_key_at_index(s, k2, x);
    }
    if n >= 2 {
        if i == 0 {
            assert(t[0] == s[1]);
            assert(s[1].0 != s[0].0);
        } else {
            assert(t[0] == s[0]);
            assert(s[0].0 != s[i].0);
        }
    }
}

/// Inserting a fresh key into a full store evicts exactly the
/// least-recently-used entry: the key in the eviction slot (position `0`)
/// is gone afterwards, every other present entry survives with its value,
/// the new key maps to the new value as the most-recently-used entry, and
/// the number of entries is unchanged.
pub proof fn lemma_evict_push_properties<KV, Val>(s: Seq<(KV, Val)>, k: KV, v: Val)
    requires
        distinct_keys(s),
        s.len() > 0,
        !has_key(s, k),
    ensures
        evict_push(s, k, v).len() == s.len(),
        distinct_keys(evict_push(s, k, v)),
        evict_push(s, k, v).last() == (k, v),
        !has_key(evict_push(s, k, v), s[0].0),
        has_key(evict_push(s, k, v), k),
        value_of(evict_push(s, k, v), k) == v,
        forall|k2: KV|
            #[trigger] has_key(evict_push(s, k, v), k2) <==> (k2 == k || (has_key(s, k2) && k2
                != s[0].0)),
        forall|k2: KV|
            has_key(s, k2) && k2 != s[0].0 ==> #[trigger] value_of(evict_push(s, k, v), k2)
                == value_of(s, k2),
{
    let n = s.len() as int;
    let t = evict_push(s, k, v);
    assert(t.len() == n);
    assert(forall|j: int| 0 <= j < n - 1 ==> #[trigger] t[j] == s[j + 1]);
    assert(t[n - 1] == (k, v));
    assert forall|x: int| 0 <= x < n implies (#[trigger] s[x]).0 != k by {
        if s[x].0 == k {
            assert(has_key(s, k));
            assert(false);
        }
    }
    assert forall|a: int, b: int| 0 <= a < b < n implies (#[trigger] t[a]).0 != (
    #[trigger] t[b]).0 by {
        assert(t[a] == s[a + 1]);
        if b < n - 1 {
            assert(t[b] == s[b + 1]);
            assert(s[a + 1].0 != s[b + 1].0);
        }
    }
    lemma_key_at_index(t, k, n - 1);
    if has_key(t, s[0].0) {
        let j = index_of_key(t, s[0].0);
        assert(0 <= j < n && t[j].0 == s[0].0);
        if j < n - 1 {
            assert(s[j + 1].0 == s[0].0);
            assert(s[0].0 != s[j + 1].0);
        }
        assert(false);
    }
    assert forall|k2: KV| #[trigger] has_key(t, k2) implies (k2 == k || (has_key(s, k2) && k2
        != s[0].0)) by {
        let j = index_of_key(t, k2);
        assert(0 <= j < n && t[j].0 == k2);
        if j < n - 1 {
            assert(s[j + 1].0 == k2);
            assert(s[0].0 != s[j + 1].0);
        }
    }
    assert forall|k2: KV| k2 == k || (has_key(s, k2) && k2 != s[0].0) implies #[trigger] has_key(
        t,
        k2,
    ) by {
        if k2 == k {
            assert(t[n - 1].0 == k2);
        } else {
            let x = index_of_key(s, k2);
            assert(0 <= x < n && s[x].0 == k2);
            assert(x != 0);
            assert(t[x - 1] == s[x]);
            assert(t[x - 1].0 == k2);
        }
    }
    assert forall|k2: KV| has_key(s, k2) && k2 != s[0].0 implies #[trigger] value_of(t, k2)
        == value_of(s, k2) by {
        let x = index_of_key(s, k2);
        assert(0 <= x < n && s[x].0 == k2);
        assert(x != 0);
        assert(t[x - 1] == s[x]);
        lemma_key_at_index(t, k2, x - 1);
        lemma_key_at_index(s, k2, x);
    }
}

} // verus!
