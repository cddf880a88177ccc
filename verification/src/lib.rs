//! An in-memory key-value store with bounded capacity and a
//! least-recently-used eviction policy.
//!
//! The store keeps a direct-lookup mapping and a recency order that always
//! agree on membership: when the store is full and a new key is inserted,
//! the entry that has gone longest without being read or written is evicted.

pub mod lru;
