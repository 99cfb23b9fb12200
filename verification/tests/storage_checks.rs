use geoverse::cache_key::CacheKey;
use geoverse::{DequeStorage, LirsStorage, LruStorage};

fn key(lat: i32, lng: i32) -> CacheKey {
    CacheKey::try_from_microdeg(lat, lng, "en").unwrap()
}

#[test]
fn keys_without_text_form_are_reported() {
    // -10_000_000 microdegrees needs nine bytes with `{:08}`
    let wide = key(-10_000_000, 0);
    assert!(!wide.is_encodable());
    assert!(key(-9_999_999, 99_999_999).is_encodable());

    let mut deque = DequeStorage::default();
    deque.insert(key(1, 2), "a".to_string());
    assert!(deque.keys_encodable());
    deque.insert(wide, "b".to_string());
    assert!(!deque.keys_encodable());

    let mut lru = LruStorage::default();
    lru.insert(key(1, 2), "a".to_string());
    assert!(lru.keys_encodable());
    lru.insert(wide, "b".to_string());
    assert!(!lru.keys_encodable());

    let mut lirs = LirsStorage::default();
    lirs.insert(key(1, 2), "a".to_string());
    assert!(lirs.keys_encodable());
    lirs.insert(wide, "b".to_string());
    assert!(!lirs.keys_encodable());
}

#[test]
fn lru_records_size_sums_records() {
    let mut lru = LruStorage::default();
    assert_eq!(lru.records_size(), Some(0));
    lru.insert(key(1, 2), "abc".to_string());
    lru.insert(key(3, 4), "de".to_string());
    assert_eq!(lru.records_size(), Some(24 + 23));
    lru.insert(key(1, 2), "x".to_string());
    assert_eq!(lru.records_size(), Some(22 + 23));
}

#[test]
fn lirs_can_insert_small_records() {
    let lirs = LirsStorage::default();
    assert!(lirs.can_insert(&key(1, 2), &"abc".to_string()));
}

#[test]
fn with_capacity_sizes_the_limits() {
    let deque = DequeStorage::with_capacity(50);
    assert_eq!(deque.in_memory_record_count(), 0);
    assert!(deque.first().is_none());

    let lru = LruStorage::with_capacity(50);
    assert_eq!(lru.in_memory_record_count(), 0);

    let mut lirs = LirsStorage::with_capacity(20);
    // LIR limit 19: the twentieth and later items are HIR and evicted first
    for i in 0..30 {
        lirs.insert(key(i, 0), "0123456789".to_string());
    }
    assert_eq!(lirs.in_memory_record_count(), 30);
    // memory limit 20 * 41 = 820; 930 bytes are in use, so 3 records go
    lirs.evict();
    assert_eq!(lirs.in_memory_record_count(), 27);
    assert_eq!(lirs.get(&key(19, 0)), None);
    assert_eq!(lirs.get(&key(18, 0)), Some(&"0123456789".to_string()));
    assert_eq!(lirs.last().unwrap().0, &key(0, 0));
}
