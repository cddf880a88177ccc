use lru_store::lru::LRUCache;
use lru_store::lru::ephemeral::EphemeralCache;

#[test]
fn test_lru_simple() {
    let mut cache = EphemeralCache::new(2);

    cache.put(String::from("A"), 1);
    cache.put(String::from("B"), 2);
    println!("[TEST] Après put(A=1), put(B=2) => {:#?}", cache);

    assert_eq!(cache.get(&String::from("A")), Some(&1));
    println!("[TEST] Après get(A) => {:#?}", cache);

    assert_eq!(cache.get(&String::from("B")), Some(&2));
    println!("[TEST] Après get(B) => {:#?}", cache);

    cache.put(String::from("C"), 3);
    println!("[TEST] Après put(C=3) => {:#?}", cache);

    assert_eq!(cache.get(&String::from("A")), None);
    assert_eq!(cache.get(&String::from("B")), Some(&2));
    assert_eq!(cache.get(&String::from("C")), Some(&3));

    println!("[TEST] Fin du test => {:#?}", cache);
}

#[test]
fn test_empty_store() {
    let mut cache: EphemeralCache<String, i32> = EphemeralCache::new(2);
    assert_eq!(cache.size(), 0);
    assert_eq!(cache.capacity(), 2);
    assert_eq!(cache.get(&String::from("A")), None);
    assert_eq!(cache.size(), 0);
}

#[test]
fn test_put_get_basic() {
    let mut cache = EphemeralCache::new(2);
    cache.put(String::from("A"), 1);
    cache.put(String::from("B"), 2);
    assert_eq!(cache.get(&String::from("A")), Some(&1));
    assert_eq!(cache.get(&String::from("B")), Some(&2));
    assert_eq!(cache.size(), 2);
}

#[test]
fn test_promotion_then_eviction() {
    let mut cache = EphemeralCache::new(2);
    cache.put(String::from("A"), 1);
    cache.put(String::from("B"), 2);
    // Promote A, then B: the recency order is now [A, B], A least recent.
    assert_eq!(cache.get(&String::from("A")), Some(&1));
    assert_eq!(cache.get(&String::from("B")), Some(&2));
    // Full store: inserting C evicts A, the least-recently used key.
    cache.put(String::from("C"), 3);
    assert_eq!(cache.get(&String::from("A")), None);
    assert_eq!(cache.get(&String::from("B")), Some(&2));
    assert_eq!(cache.get(&String::from("C")), Some(&3));
}

#[test]
fn test_capacity_one_immediate_eviction() {
    let mut cache = EphemeralCache::new(1);
    cache.put(String::from("X"), 10);
    cache.put(String::from("Y"), 20);
    assert_eq!(cache.get(&String::from("X")), None);
    assert_eq!(cache.get(&String::from("Y")), Some(&20));
    assert_eq!(cache.size(), 1);
}

#[test]
fn test_overwrite_keeps_size() {
    let mut cache = EphemeralCache::new(2);
    cache.put(String::from("A"), 1);
    cache.put(String::from("A"), 2);
    assert_eq!(cache.size(), 1);
    assert_eq!(cache.get(&String::from("A")), Some(&2));
}

#[test]
fn test_overwrite_never_evicts() {
    let mut cache = EphemeralCache::new(2);
    cache.put(String::from("A"), 1);
    cache.put(String::from("B"), 2);
    // Overwriting a present key in a full store evicts nothing.
    cache.put(String::from("A"), 3);
    assert_eq!(cache.size(), 2);
    assert_eq!(cache.get(&String::from("B")), Some(&2));
    assert_eq!(cache.get(&String::from("A")), Some(&3));
}

#[test]
fn test_capacity_constant() {
    let mut cache = EphemeralCache::<i32, String>::new(3);
    assert_eq!(cache.capacity(), 3);
    cache.put(1, String::from("one"));
    assert_eq!(cache.capacity(), 3);
    cache.put(2, String::from("two"));
    cache.put(3, String::from("three"));
    cache.put(4, String::from("four"));
    assert_eq!(cache.capacity(), 3);
    cache.get(&2);
    assert_eq!(cache.capacity(), 3);
}

#[test]
fn test_size_never_exceeds_capacity() {
    let mut cache: EphemeralCache<u64, u64> = EphemeralCache::new(2);
    let keys: Vec<u64> = vec![1, 2, 3, 4, 5];
    for k in keys {
        cache.put(k, 10 * k);
        assert!(cache.size() <= cache.capacity());
    }
    assert_eq!(cache.size(), 2);
    assert_eq!(cache.get(&4), Some(&40));
    assert_eq!(cache.get(&5), Some(&50));
    assert_eq!(cache.get(&3), None);
}

#[test]
fn test_mark_as_recent_promotes() {
    let mut cache = EphemeralCache::new(2);
    cache.put(String::from("A"), 1);
    cache.put(String::from("B"), 2);
    // A is the eviction candidate; promoting it makes B the candidate.
    cache.mark_as_recent(&String::from("A"));
    cache.put(String::from("C"), 3);
    assert_eq!(cache.get(&String::from("B")), None);
    assert_eq!(cache.get(&String::from("A")), Some(&1));
    assert_eq!(cache.get(&String::from("C")), Some(&3));
}

#[test]
fn test_miss_does_not_promote() {
    let mut cache = EphemeralCache::new(2);
    cache.put(String::from("A"), 1);
    cache.put(String::from("B"), 2);
    // A miss must not alter the recency order: A stays the candidate.
    assert_eq!(cache.get(&String::from("Z")), None);
    cache.put(String::from("C"), 3);
    assert_eq!(cache.get(&String::from("A")), None);
    assert_eq!(cache.get(&String::from("B")), Some(&2));
}
