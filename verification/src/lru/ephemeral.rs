//! A purely in-memory LRU store.
//!
//! The entries live in a single vector ordered from least- to most-recently
//! touched, so the lookup mapping and the recency order are one structure
//! and cannot disagree on membership.  Every touch is a linear scan; that
//! keeps the code simple and is fine for small capacities, while the
//! contracts leave room for an indexed constant-time implementation with
//! the same observable behaviour.

use vstd::prelude::*;

use crate::lru::CacheKey;
use crate::lru::LRUCache;
use crate::lru::distinct_keys;
use crate::lru::has_key;
use crate::lru::index_of_key;
use crate::lru::value_of;
use crate::lru::promote;
use crate::lru::evict_push;
use crate::lru::lemma_key_at_index;
use crate::lru::lemma_push_properties;
use crate::lru::lemma_promote_properties;
use crate::lru::lemma_evict_push_properties;

verus! {

/// An in-memory LRU store with a fixed positive capacity.
///
/// `store` holds the live `(key, value)` pairs from least- to most-recently
/// touched: position `0` is the eviction candidate, the last position the
/// most-recently-used entry.
#[derive(Debug)]
pub struct EphemeralCache<K, V> {
    capacity: usize,
    store: Vec<(K, V)>,
}

impl<K: CacheKey, V> EphemeralCache<K, V> {
    /// Builds an empty store with the given maximum number of entries.
    /// A non-positive capacity is a contract violation and is rejected.
    pub fn new(capacity: usize) -> (r: Self)
        requires
            0 < capacity,
        ensures
            r.inv(),
            r.cap() == capacity,
            r.entries() == Seq::<(<K as View>::V, V)>::empty(),
    {
        let r = EphemeralCache { capacity, store: Vec::new() };
        proof {
            assert(r.entries() =~= Seq::<(<K as View>::V, V)>::empty());
        }
        r
    }

    /// Returns the number of entries currently held.
    pub fn size(&self) -> (r: usize)
        ensures
            r == self.entries().len(),
    {
        self.store.len()
    }

    /// Returns the position of `key` in the recency order, or `None` when
    /// the key is absent.
    fn position_of(&self, key: &K) -> (r: Option<usize>)
        requires
            self.inv(),
        ensures
            match r {
                Some(i) => {
                    &&& i < self.entries().len()
                    &&& self.entries()[i as int].0 == key@
                    &&& has_key(self.entries(), key@)
                    &&& index_of_key(self.entries(), key@) == i
                },
                None => !has_key(self.entries(), key@),
            },
    {
        let n = self.store.len();
        let mut i: usize = 0;
        while i < n
            invariant
                self.inv(),
                n == self.store.len(),
                i <= n,
                forall|j: int| 0 <= j < i ==> (#[trigger] self.entries()[j]).0 != key@,
            decreases n - i,
        {
            if self.store[i].0.key_eq(key) {
                proof {
                    lemma_key_at_index(self.entries(), key@, i as int);
                }
                return Some(i);
            }
            i = i + 1;
        }
        None
    }

    /// Declares the present key `key` most-recently used: its entry leaves
    /// its position in the recency order and moves to the tail.
    pub fn mark_as_recent(&mut self, key: &K)
        requires
            old(self).inv(),
            has_key(old(self).entries(), key@),
        ensures
            final(self).inv(),
            final(self).cap() == old(self).cap(),
            final(self).entries() == promote(
                old(self).entries(),
                key@,
                value_of(old(self).entries(), key@),
            ),
    {
        match self.position_of(key) {
            Some(i) => {
                let p = self.store.remove(i);
                self.store.push(p);
                proof {
                    let es = old(self).entries();
                    lemma_promote_properties(es, key@, value_of(es, key@));
                    assert(self.entries() =~= promote(es, key@, value_of(es, key@)));
                }
            },
            None => {
                // Unreachable: the precondition says the key is present.
                proof {
                    assert(false);
                }
            },
        }
    }
}

impl<K: CacheKey, V> LRUCache<K, V> for EphemeralCache<K, V> {
    closed spec fn entries(&self) -> Seq<(<K as View>::V, V)> {
        self.store@.map_values(|p: (K, V)| (p.0@, p.1))
    }

    closed spec fn cap(&self) -> nat {
        self.capacity as nat
    }

    closed spec fn inv(&self) -> bool {
        &&& 0 < self.capacity
        &&& self.store@.len() <= self.capacity
        &&& distinct_keys(self.entries())
    }

    proof fn inv_facts(&self) {
    }

    fn put(&mut self, key: K, value: V) {
        match self.position_of(&key) {
            Some(i) => {
                // Overwrite: the entry keeps its key, takes the new value
                // and moves to the tail of the recency order.
                let p = self.store.remove(i);
                self.store.push((p.0, value));
                proof {
                    let es = old(self).entries();
                    lemma_promote_properties(es, key@, value);
                    assert(self.entries() =~= promote(es, key@, value));
                }
            },
            None => {
                if self.store.len() == self.capacity {
                    // Full: evict the least-recently-used entry first.
                    self.store.remove(0);
                    self.store.push((key, value));
                    proof {
                        let es = old(self).entries();
                        lemma_evict_push_properties(es, key@, value);
                        assert(self.entries() =~= evict_push(es, key@, value));
                    }
                } else {
                    self.store.push((key, value));
                    proof {
                        let es = old(self).entries();
                        lemma_push_properties(es, key@, value);
                        assert(self.entries() =~= es.push((key@, value)));
                    }
                }
            },
        }
    }

    fn get<'a>(&'a mut self, key: &K) -> (r: Option<&'a V>) {
        match self.position_of(key) {
            Some(_) => {
                self.mark_as_recent(key);
                proof {
                    let es = old(self).entries();
                    lemma_promote_properties(es, key@, value_of(es, key@));
                }
                let n = self.store.len();
                Some(&self.store[n - 1].1)
            },
            None => None,
        }
    }

    fn capacity(&self) -> (r: usize) {
        self.capacity
    }
}

} // verus!
