use geoverse::cache_key::CacheKey;
use geoverse::storage::deque::DequeStorageItem;
use geoverse::DequeStorage;

const SIZE: usize = 100;
// unknown-00
const ADDRESS_LEN: usize = 10;

fn key(lat: f64, lng: f64, lang: &str) -> CacheKey {
    let lat = (lat * 1_000_000.0).round() as i32;
    let lng = (lng * 1_000_000.0).round() as i32;
    CacheKey::try_from_microdeg(lat, lng, lang).unwrap()
}

fn create_test_deque_storage() -> DequeStorage {
    let mut deque_storage = DequeStorage::default();
    deque_storage.memory_max_size(1000);
    deque_storage
}

/// Evicts, then writes the records and takes their size as memory usage,
/// as a flush to a file does.
fn evict_and_flush(deque_storage: &mut DequeStorage) -> Vec<u8> {
    deque_storage.evict();
    let bytes = deque_storage.as_bytes();
    deque_storage.set_in_memory_size(bytes.len());
    bytes
}

#[test]
fn deque_read() {
    let mut deque_storage = create_test_deque_storage();

    deque_storage.insert(key(48.1645819, 17.1847104, "en"), "Bratislava, Slovakia".to_string());
    deque_storage.insert(key(50.073658, 14.418540, "en"), "Prague, Czechia".to_string());

    assert_eq!(deque_storage.in_memory_record_count(), 2);
    assert_eq!(deque_storage.address_count(), 2);

    let bytes = deque_storage.as_bytes();

    drop(deque_storage);

    // Create a new instance
    let mut deque_storage = DequeStorage::default();
    deque_storage.read_bytes(&bytes);

    assert_eq!(deque_storage.in_memory_record_count(), 2);
    assert_eq!(deque_storage.address_count(), 2);
}

#[test]
fn deque_insertion() {
    let mut deque_storage = create_test_deque_storage();

    deque_storage.insert(key(48.1645819, 17.1847104, "en"), "Bratislava, Slovakia".to_string());
    deque_storage.insert(key(50.073658, 14.418540, "en"), "Prague, Czechia".to_string());

    assert_eq!(deque_storage.in_memory_record_count(), 2);
    assert_eq!(deque_storage.address_count(), 2);
}

#[test]
fn deque_deletion() {
    let mut deque_storage = create_test_deque_storage();

    for i in 1..=SIZE {
        deque_storage.insert(
            key(
                48.1645819 + (i as f64 * 0.01) as f64,
                17.1847104 + (i as f64 * 0.01) as f64,
                "en",
            ),
            format!("unknown-{:02}", i),
        );
    }

    assert_eq!(deque_storage.in_memory_record_count(), SIZE);
    assert_eq!(deque_storage.address_count(), SIZE);

    evict_and_flush(&mut deque_storage);

    assert_eq!(deque_storage.in_memory_record_count(), 90);
    assert_eq!(deque_storage.address_count(), 90);

    let first_record = deque_storage.first().unwrap();
    let last_record = deque_storage.last().unwrap();

    assert_eq!(first_record.1, "unknown-100");
    assert_eq!(last_record.1, "unknown-11");
}

#[test]
fn deque_memory_size() {
    let mut deque_storage = create_test_deque_storage();

    for i in 0..SIZE {
        deque_storage.insert(
            key(
                48.1645819 + (i as f64 * 0.01) as f64,
                17.1847104 + (i as f64 * 0.01) as f64,
                "en",
            ),
            format!("unknown-{:02}", i),
        );
    }

    assert_eq!(
        deque_storage.get_in_memory_size(),
        DequeStorageItem::len() * SIZE + ADDRESS_LEN * SIZE
    );
}

#[test]
fn deque_memory_size_with_eviction() {
    let mut deque_storage = create_test_deque_storage();

    for i in 0..SIZE {
        deque_storage.insert(
            key(
                48.1645819 + (i as f64 * 0.01) as f64,
                17.1847104 + (i as f64 * 0.01) as f64,
                "en",
            ),
            format!("unknown-{:02}", i),
        );
    }

    let memory_size: usize = DequeStorageItem::len() * SIZE + ADDRESS_LEN * SIZE;

    let on_delete_items_count = deque_storage.on_delete_items_count();

    let memory_size_of_deleted_records =
        DequeStorageItem::len() * on_delete_items_count + ADDRESS_LEN * on_delete_items_count;

    assert_eq!(deque_storage.get_in_memory_size(), memory_size);

    evict_and_flush(&mut deque_storage);

    assert_eq!(
        deque_storage.get_in_memory_size(),
        memory_size - memory_size_of_deleted_records
    );
}

#[test]
fn deque_get_after_insert_and_reinsert() {
    let mut deque_storage = create_test_deque_storage();
    let k = key(48.1645819, 17.1847104, "sk");
    assert_eq!(deque_storage.get(&k), None);
    deque_storage.insert(k, "Bratislava".to_string());
    assert_eq!(deque_storage.get(&k), Some(&"Bratislava".to_string()));
    deque_storage.insert(k, "Pressburg".to_string());
    assert_eq!(deque_storage.get(&k), Some(&"Pressburg".to_string()));
    // A key inserted twice is listed twice but holds one address.
    assert_eq!(deque_storage.in_memory_record_count(), 2);
    assert_eq!(deque_storage.address_count(), 1);
    assert_eq!(deque_storage.first().unwrap().1, "Pressburg");
}

#[test]
fn deque_round_trip_keeps_order_and_addresses() {
    let mut deque_storage = create_test_deque_storage();
    let a = key(48.1645819, 17.1847104, "en");
    let b = key(50.073658, 14.418540, "cs");
    deque_storage.insert(a, "Bratislava".to_string());
    deque_storage.insert(b, "Praha".to_string());
    let bytes = deque_storage.as_bytes();
    assert_eq!(bytes.len(), 2 * 21 + "Bratislava".len() + "Praha".len());

    let mut read = DequeStorage::default();
    read.read_bytes(&bytes);
    assert_eq!(read.first().unwrap(), (&b, &"Praha".to_string()));
    assert_eq!(read.last().unwrap(), (&a, &"Bratislava".to_string()));
    assert_eq!(read.get(&a), Some(&"Bratislava".to_string()));
    assert_eq!(read.get_in_memory_size(), bytes.len());
    assert_eq!(read.as_bytes(), bytes);
}

#[test]
fn deque_needs_eviction_when_record_passes_the_limit() {
    let mut deque_storage = create_test_deque_storage();
    assert!(!deque_storage.needs_eviction(0));
    // 31 bytes in use; 31 + 21 + 948 == 1000 fits, one more byte does not
    deque_storage.insert(key(48.0, 17.0, "en"), "0123456789".to_string());
    assert!(!deque_storage.needs_eviction(948));
    assert!(deque_storage.needs_eviction(949));
    assert_eq!(deque_storage.get_memory_max_size(), 1000);
}

#[test]
fn deque_no_eviction_with_room_under_the_limit() {
    // with 995 of 1000 bytes in use a 10-byte address calls for eviction
    let mut deque_storage = create_test_deque_storage();
    deque_storage.insert(key(48.0, 17.0, "en"), "x".repeat(974));
    assert_eq!(deque_storage.get_in_memory_size(), 995);
    assert!(deque_storage.needs_eviction(10));
    // a default (100 MiB) limit leaves room for a 30-byte address
    let mut roomy = DequeStorage::default();
    roomy.memory_max_size(100 * 1024 * 1024);
    roomy.insert(key(48.0, 17.0, "en"), "x".repeat(20));
    assert!(!roomy.needs_eviction(30));
}

#[test]
fn deque_empty_first_last() {
    let deque_storage = create_test_deque_storage();
    assert!(deque_storage.first().is_none());
    assert!(deque_storage.last().is_none());
    assert_eq!(deque_storage.on_delete_items_count(), 0);
}
