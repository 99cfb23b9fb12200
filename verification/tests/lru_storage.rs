use geoverse::cache_key::CacheKey;
use geoverse::storage::deque::DequeStorageItem;
use geoverse::{DequeStorage, LruStorage};

const SIZE: usize = 100;
const ADDRESS_LEN: usize = 10;

fn key(lat: f64, lng: f64, lang: &str) -> CacheKey {
    let lat = (lat * 1_000_000.0).round() as i32;
    let lng = (lng * 1_000_000.0).round() as i32;
    CacheKey::try_from_microdeg(lat, lng, lang).unwrap()
}

fn create_test_lru_storage() -> LruStorage {
    let mut lru_storage = LruStorage::default();
    lru_storage.memory_max_size(1000);
    lru_storage
}

/// Evicts, then writes the records and takes their size as memory usage,
/// as a flush to a file does.
fn evict_and_flush(lru_storage: &mut LruStorage) -> Vec<u8> {
    lru_storage.evict();
    let bytes = lru_storage.as_bytes();
    lru_storage.set_in_memory_size(bytes.len());
    bytes
}

#[test]
fn lru_read() {
    let mut lru_storage = create_test_lru_storage();

    lru_storage.insert(key(48.1645819, 17.1847104, "en"), "Bratislava, Slovakia".to_string());
    lru_storage.insert(key(50.073658, 14.418540, "en"), "Prague, Czechia".to_string());

    assert_eq!(lru_storage.in_memory_record_count(), 2);

    let bytes = lru_storage.as_bytes();

    drop(lru_storage);

    let mut lru_storage = LruStorage::default();
    lru_storage.read_bytes(&bytes);

    assert_eq!(lru_storage.in_memory_record_count(), 2);
}

#[test]
fn lru_insertion() {
    let mut lru_storage = create_test_lru_storage();

    lru_storage.insert(key(48.1645819, 17.1847104, "en"), "Bratislava, Slovakia".to_string());
    lru_storage.insert(key(50.073658, 14.418540, "en"), "Prague, Czechia".to_string());

    assert_eq!(lru_storage.in_memory_record_count(), 2);
}

#[test]
fn lru_deletion() {
    let mut lru_storage = create_test_lru_storage();

    for i in 1..=SIZE {
        lru_storage.insert(
            key(
                48.1645819 + (i as f64 * 0.01) as f64,
                17.1847104 + (i as f64 * 0.01) as f64,
                "en",
            ),
            format!("unknown-{:02}", i),
        );
    }

    assert_eq!(lru_storage.in_memory_record_count(), SIZE);

    evict_and_flush(&mut lru_storage);

    assert_eq!(lru_storage.in_memory_record_count(), 90);

    let first_record = lru_storage.first().unwrap();
    let last_record = lru_storage.last().unwrap();

    assert_eq!(first_record.1, "unknown-100");
    assert_eq!(last_record.1, "unknown-11");
}

#[test]
fn lru_memory_size() {
    let mut lru_storage = create_test_lru_storage();

    for i in 0..SIZE {
        lru_storage.insert(
            key(
                48.1645819 + (i as f64 * 0.01) as f64,
                17.1847104 + (i as f64 * 0.01) as f64,
                "en",
            ),
            format!("unknown-{:02}", i),
        );
    }

    assert_eq!(
        lru_storage.get_in_memory_size(),
        DequeStorageItem::len() * SIZE + ADDRESS_LEN * SIZE
    );
}

#[test]
fn lru_memory_size_with_eviction() {
    let mut lru_storage = create_test_lru_storage();

    for i in 0..SIZE {
        lru_storage.insert(
            key(
                48.1645819 + (i as f64 * 0.01) as f64,
                17.1847104 + (i as f64 * 0.01) as f64,
                "en",
            ),
            format!("unknown-{:02}", i),
        );
    }

    let memory_size: usize = DequeStorageItem::len() * SIZE + ADDRESS_LEN * SIZE;

    let on_delete_items_count = lru_storage.on_delete_items_count();

    let memory_size_of_deleted_records =
        DequeStorageItem::len() * on_delete_items_count + ADDRESS_LEN * on_delete_items_count;

    assert_eq!(lru_storage.get_in_memory_size(), memory_size);

    evict_and_flush(&mut lru_storage);

    assert_eq!(
        lru_storage.get_in_memory_size(),
        memory_size - memory_size_of_deleted_records
    );
}

#[test]
fn lru_read_preserves_order() {
    let mut lru_storage = create_test_lru_storage();

    lru_storage.insert(key(48.1645819, 17.1847104, "en"), "Bratislava, Slovakia".to_string());
    lru_storage.insert(key(50.073658, 14.418540, "en"), "Prague, Czechia".to_string());

    // Order: MRU = Prague, LRU = Bratislava
    assert_eq!(lru_storage.first().unwrap().1, "Prague, Czechia");
    assert_eq!(lru_storage.last().unwrap().1, "Bratislava, Slovakia");

    let bytes = lru_storage.as_bytes();
    drop(lru_storage);

    let mut lru_storage = LruStorage::default();
    lru_storage.read_bytes(&bytes);

    // Order must be restored: MRU = Prague, LRU = Bratislava
    let first = lru_storage.first().unwrap();
    let last = lru_storage.last().unwrap();

    assert_eq!(first.1, "Prague, Czechia");
    assert_eq!(last.1, "Bratislava, Slovakia");
}

#[test]
fn lru_get_promotes_item() {
    let mut lru_storage = create_test_lru_storage();

    lru_storage.insert(key(48.1645819, 17.1847104, "en"), "Bratislava".to_string());
    lru_storage.insert(key(50.073658, 14.418540, "en"), "Prague".to_string());
    lru_storage.insert(key(51.5074, -0.1278, "en"), "London".to_string());

    // Order: MRU = London, then Prague, LRU = Bratislava
    assert_eq!(lru_storage.first().unwrap().1, "London");
    assert_eq!(lru_storage.last().unwrap().1, "Bratislava");

    // Access Bratislava: promotes it to MRU
    lru_storage.get(&key(48.1645819, 17.1847104, "en"));

    // Order: MRU = Bratislava, then London, LRU = Prague
    assert_eq!(lru_storage.first().unwrap().1, "Bratislava");
    assert_eq!(lru_storage.last().unwrap().1, "Prague");
}

#[test]
fn lru_serialization_compatible_with_deque() {
    let mut deque = DequeStorage::default();
    deque.memory_max_size(1000);

    deque.insert(key(48.1645819, 17.1847104, "en"), "Bratislava, Slovakia".to_string());
    deque.insert(key(50.073658, 14.418540, "en"), "Prague, Czechia".to_string());

    // Write with Deque, read with Lru
    let bytes = deque.as_bytes();
    drop(deque);

    let mut lru = LruStorage::default();
    lru.memory_max_size(1000);
    lru.read_bytes(&bytes);

    assert_eq!(lru.in_memory_record_count(), 2);
    assert_eq!(
        lru.get(&key(48.1645819, 17.1847104, "en")),
        Some(&"Bratislava, Slovakia".to_string())
    );
    assert_eq!(
        lru.get(&key(50.073658, 14.418540, "en")),
        Some(&"Prague, Czechia".to_string())
    );

    // Write with Lru, read with Deque
    let bytes = lru.as_bytes();
    drop(lru);

    let mut deque = DequeStorage::default();
    deque.memory_max_size(1000);
    deque.read_bytes(&bytes);

    assert_eq!(deque.in_memory_record_count(), 2);
}

#[test]
fn lru_reinsert_replaces_and_moves_to_front() {
    let mut lru_storage = create_test_lru_storage();
    let a = key(48.1645819, 17.1847104, "en");
    let b = key(50.073658, 14.418540, "en");
    lru_storage.insert(a, "Bratislava".to_string());
    lru_storage.insert(b, "Prague".to_string());
    lru_storage.insert(a, "Pressburg".to_string());
    assert_eq!(lru_storage.in_memory_record_count(), 2);
    assert_eq!(lru_storage.first().unwrap(), (a, &"Pressburg".to_string()));
    assert_eq!(lru_storage.last().unwrap(), (b, &"Prague".to_string()));
    assert_eq!(lru_storage.get(&a), Some(&"Pressburg".to_string()));
    assert_eq!(lru_storage.get(&key(1.0, 2.0, "en")), None);
    // memory counts every insert: 21 + 10, 21 + 6, 21 + 9
    assert_eq!(lru_storage.get_in_memory_size(), 31 + 27 + 30);
}

#[test]
fn lru_read_reads_bytes_back_in_order() {
    let mut lru_storage = create_test_lru_storage();
    lru_storage.insert(key(48.0, 17.0, "en"), "a".to_string());
    lru_storage.insert(key(49.0, 18.0, "en"), "bb".to_string());
    lru_storage.insert(key(50.0, 19.0, "en"), "ccc".to_string());
    let bytes = lru_storage.as_bytes();
    let mut read = LruStorage::default();
    read.read_bytes(&bytes);
    assert_eq!(read.as_bytes(), bytes);
    assert_eq!(read.get_in_memory_size(), bytes.len());
    assert_eq!(read.first().unwrap().1, "ccc");
    assert_eq!(read.last().unwrap().1, "a");
}

#[test]
fn lru_evict_nothing_under_ten_percent() {
    let mut lru_storage = LruStorage::default();
    lru_storage.memory_max_size(100_000);
    lru_storage.insert(key(48.0, 17.0, "en"), "abc".to_string());
    assert_eq!(lru_storage.on_delete_items_count(), 0);
    lru_storage.evict();
    assert_eq!(lru_storage.in_memory_record_count(), 1);
    // 24 bytes in use: 24 + 21 + 99_955 == 100_000 fits, one more does not
    assert!(!lru_storage.needs_eviction(99_955));
    assert!(lru_storage.needs_eviction(99_956));
    assert_eq!(lru_storage.get_memory_max_size(), 100_000);
}
