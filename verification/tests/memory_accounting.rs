use geoverse::cache_key::CacheKey;
use geoverse::{LirsStorage, LruStorage};

fn key(lat: i32) -> CacheKey {
    CacheKey::try_from_microdeg(lat, 17_000_000, "en").unwrap()
}

#[test]
fn lirs_memory_is_the_flushed_size() {
    let mut lirs = LirsStorage::default();
    lirs.memory_max_size(1000);
    for i in 0..40 {
        lirs.insert(key(i), format!("address {}", i));
        assert_eq!(lirs.get_in_memory_size(), lirs.as_bytes().len());
    }
    // re-inserting a resident key replaces its address
    lirs.insert(key(0), "x".to_string());
    assert_eq!(lirs.get_in_memory_size(), lirs.as_bytes().len());
    lirs.get(&key(5));
    assert_eq!(lirs.get_in_memory_size(), lirs.as_bytes().len());
    lirs.evict();
    assert_eq!(lirs.get_in_memory_size(), lirs.as_bytes().len());
}

#[test]
fn lirs_insert_keeps_other_keys() {
    let mut lirs = LirsStorage::default();
    lirs.memory_max_size(1000);
    for i in 0..40 {
        lirs.insert(key(i), format!("address {}", i));
    }
    lirs.evict();
    let before = lirs.in_memory_record_count();
    // 40 records of about 31 bytes pass 10% of 1000 bytes: the first four
    // HIR keys (22 to 25) are evicted; key 1 is resident (LIR)
    assert_eq!(lirs.get(&key(23)), None);
    assert_eq!(lirs.get(&key(1)), Some(&"address 1".to_string()));
    lirs.insert(key(100), "new".to_string());
    assert_eq!(lirs.in_memory_record_count(), before + 1);
    assert_eq!(lirs.get(&key(23)), None);
    assert_eq!(lirs.get(&key(1)), Some(&"address 1".to_string()));
    lirs.insert(key(1), "again".to_string());
    assert_eq!(lirs.in_memory_record_count(), before + 1);
}

#[test]
fn lru_memory_is_the_flushed_size_for_new_keys() {
    let mut lru = LruStorage::default();
    for i in 0..10 {
        lru.insert(key(i), format!("address {}", i));
        assert_eq!(lru.get_in_memory_size(), lru.as_bytes().len());
        assert_eq!(lru.first().unwrap(), (key(i), &format!("address {}", i)));
        assert_eq!(lru.in_memory_record_count(), i as usize + 1);
    }
    // a present key counts its whole record again: the old 30-byte record
    // stays counted
    lru.insert(key(0), "x".to_string());
    assert_eq!(lru.in_memory_record_count(), 10);
    assert_eq!(lru.get_in_memory_size(), lru.as_bytes().len() + 30);
}
