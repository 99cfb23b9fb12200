use geoverse::cache_key::CacheKey;
use geoverse::storage::deque::DequeStorageItem;
use geoverse::{DequeStorage, LirsStorage};

const SIZE: usize = 100;
const ADDRESS_LEN: usize = 10;

fn key(lat: f64, lng: f64, lang: &str) -> CacheKey {
    let lat = (lat * 1_000_000.0).round() as i32;
    let lng = (lng * 1_000_000.0).round() as i32;
    CacheKey::try_from_microdeg(lat, lng, lang).unwrap()
}

fn create_test_lirs_storage() -> LirsStorage {
    let mut lirs_storage = LirsStorage::default();
    lirs_storage.memory_max_size(1000);
    lirs_storage
}

/// Evicts, then writes the records and takes their size as memory usage,
/// as a flush to a file does.
fn evict_and_flush(lirs_storage: &mut LirsStorage) -> Vec<u8> {
    lirs_storage.evict();
    let bytes = lirs_storage.as_bytes();
    lirs_storage.set_in_memory_size(bytes.len());
    bytes
}

#[test]
fn lirs_read() {
    let mut lirs_storage = create_test_lirs_storage();

    lirs_storage.insert(key(48.1645819, 17.1847104, "en"), "Bratislava, Slovakia".to_string());
    lirs_storage.insert(key(50.073658, 14.418540, "en"), "Prague, Czechia".to_string());

    assert_eq!(lirs_storage.in_memory_record_count(), 2);

    let bytes = lirs_storage.as_bytes();

    drop(lirs_storage);

    let mut lirs_storage = LirsStorage::default();
    assert!(lirs_storage.read_bytes(&bytes));

    assert_eq!(lirs_storage.in_memory_record_count(), 2);
}

#[test]
fn lirs_insertion() {
    let mut lirs_storage = create_test_lirs_storage();

    lirs_storage.insert(key(48.1645819, 17.1847104, "en"), "Bratislava, Slovakia".to_string());
    lirs_storage.insert(key(50.073658, 14.418540, "en"), "Prague, Czechia".to_string());

    assert_eq!(lirs_storage.in_memory_record_count(), 2);
}

#[test]
fn lirs_deletion() {
    let mut lirs_storage = create_test_lirs_storage();

    for i in 1..=SIZE {
        lirs_storage.insert(
            key(
                48.1645819 + (i as f64 * 0.01) as f64,
                17.1847104 + (i as f64 * 0.01) as f64,
                "en",
            ),
            format!("unknown-{:02}", i),
        );
    }

    assert_eq!(lirs_storage.in_memory_record_count(), SIZE);

    evict_and_flush(&mut lirs_storage);

    assert_eq!(lirs_storage.in_memory_record_count(), 90);

    let first_record = lirs_storage.first().unwrap();
    assert_eq!(first_record.1, "unknown-100");

    // LIRS evicts from the HIR queue (items 23-32, the first HIR blocks),
    // not from the tail. Item 1 stays at the stack bottom as a LIR resident.
    let last_record = lirs_storage.last().unwrap();
    assert_eq!(last_record.1, "unknown-01");
}

#[test]
fn lirs_memory_size() {
    let mut lirs_storage = create_test_lirs_storage();

    for i in 0..SIZE {
        lirs_storage.insert(
            key(
                48.1645819 + (i as f64 * 0.01) as f64,
                17.1847104 + (i as f64 * 0.01) as f64,
                "en",
            ),
            format!("unknown-{:02}", i),
        );
    }

    assert_eq!(
        lirs_storage.get_in_memory_size(),
        DequeStorageItem::len() * SIZE + ADDRESS_LEN * SIZE
    );
}

#[test]
fn lirs_memory_size_with_eviction() {
    let mut lirs_storage = create_test_lirs_storage();

    for i in 0..SIZE {
        lirs_storage.insert(
            key(
                48.1645819 + (i as f64 * 0.01) as f64,
                17.1847104 + (i as f64 * 0.01) as f64,
                "en",
            ),
            format!("unknown-{:02}", i),
        );
    }

    let memory_size: usize = DequeStorageItem::len() * SIZE + ADDRESS_LEN * SIZE;

    let on_delete_items_count = lirs_storage.on_delete_items_count();

    let memory_size_of_deleted_records =
        DequeStorageItem::len() * on_delete_items_count + ADDRESS_LEN * on_delete_items_count;

    assert_eq!(lirs_storage.get_in_memory_size(), memory_size);

    evict_and_flush(&mut lirs_storage);

    assert_eq!(
        lirs_storage.get_in_memory_size(),
        memory_size - memory_size_of_deleted_records
    );
}

#[test]
fn lirs_read_preserves_order() {
    let mut lirs_storage = create_test_lirs_storage();

    lirs_storage.insert(key(48.1645819, 17.1847104, "en"), "Bratislava, Slovakia".to_string());
    lirs_storage.insert(key(50.073658, 14.418540, "en"), "Prague, Czechia".to_string());

    assert_eq!(lirs_storage.first().unwrap().1, "Prague, Czechia");
    assert_eq!(lirs_storage.last().unwrap().1, "Bratislava, Slovakia");

    let bytes = lirs_storage.as_bytes();
    drop(lirs_storage);

    let mut lirs_storage = LirsStorage::default();
    assert!(lirs_storage.read_bytes(&bytes));

    let first = lirs_storage.first().unwrap();
    let last = lirs_storage.last().unwrap();

    assert_eq!(first.1, "Prague, Czechia");
    assert_eq!(last.1, "Bratislava, Slovakia");
}

#[test]
fn lirs_get_promotes_item() {
    let mut lirs_storage = create_test_lirs_storage();

    lirs_storage.insert(key(48.1645819, 17.1847104, "en"), "Bratislava".to_string());
    lirs_storage.insert(key(50.073658, 14.418540, "en"), "Prague".to_string());
    lirs_storage.insert(key(51.5074, -0.1278, "en"), "London".to_string());

    assert_eq!(lirs_storage.first().unwrap().1, "London");
    assert_eq!(lirs_storage.last().unwrap().1, "Bratislava");

    lirs_storage.get(&key(48.1645819, 17.1847104, "en"));

    assert_eq!(lirs_storage.first().unwrap().1, "Bratislava");
    assert_eq!(lirs_storage.last().unwrap().1, "Prague");
}

#[test]
fn lirs_serialization_compatible_with_deque() {
    let mut deque = DequeStorage::default();
    deque.memory_max_size(100_000);

    deque.insert(key(48.1645819, 17.1847104, "en"), "Bratislava, Slovakia".to_string());
    deque.insert(key(50.073658, 14.418540, "en"), "Prague, Czechia".to_string());

    let bytes = deque.as_bytes();
    drop(deque);

    let mut lirs = LirsStorage::default();
    lirs.memory_max_size(100_000);
    assert!(lirs.read_bytes(&bytes));

    assert_eq!(lirs.in_memory_record_count(), 2);
    assert_eq!(
        lirs.get(&key(48.1645819, 17.1847104, "en")),
        Some(&"Bratislava, Slovakia".to_string())
    );
    assert_eq!(
        lirs.get(&key(50.073658, 14.418540, "en")),
        Some(&"Prague, Czechia".to_string())
    );

    let bytes = lirs.as_bytes();
    drop(lirs);

    let mut deque = DequeStorage::default();
    deque.memory_max_size(100_000);
    deque.read_bytes(&bytes);

    assert_eq!(deque.in_memory_record_count(), 2);
}

#[test]
fn lirs_get_after_insert_and_reinsert() {
    let mut lirs = create_test_lirs_storage();
    let a = key(48.1645819, 17.1847104, "en");
    assert_eq!(lirs.get(&a), None);
    lirs.insert(a, "Bratislava".to_string());
    assert_eq!(lirs.get(&a), Some(&"Bratislava".to_string()));
    lirs.insert(a, "Pressburg".to_string());
    assert_eq!(lirs.get(&a), Some(&"Pressburg".to_string()));
    assert_eq!(lirs.in_memory_record_count(), 1);
    assert_eq!(lirs.first().unwrap(), (&a, &"Pressburg".to_string()));
    // 21 + 10, then the address grows by 9 - 10 bytes
    assert_eq!(lirs.get_in_memory_size(), 30);
}

#[test]
fn lirs_evicted_item_comes_back_on_insert() {
    let mut lirs = create_test_lirs_storage();
    // The LIR limit for 1000 bytes is 22: items 23 and later are HIR.
    for i in 1..=SIZE {
        lirs.insert(key(10.0 + i as f64 * 0.01, 20.0, "en"), format!("unknown-{:02}", i));
    }
    lirs.evict();
    let evicted = key(10.0 + 23.0 * 0.01, 20.0, "en");
    assert_eq!(lirs.get(&evicted), None);
    assert_eq!(lirs.in_memory_record_count(), 90);
    lirs.insert(evicted, "back".to_string());
    assert_eq!(lirs.get(&evicted), Some(&"back".to_string()));
    assert_eq!(lirs.in_memory_record_count(), 91);
}

#[test]
fn lirs_evict_if_needed_stops_when_record_fits() {
    let mut lirs = create_test_lirs_storage();
    for i in 1..=SIZE {
        lirs.insert(key(10.0 + i as f64 * 0.01, 20.0, "en"), format!("unknown-{:02}", i));
    }
    // 3101 bytes are in use and 21 + 10 more must fit under 1000: usage
    // must drop to 969 or less, which takes 69 evictions of 31 bytes.
    lirs.evict_if_needed(10);
    assert_eq!(lirs.in_memory_record_count(), 31);
    assert_eq!(lirs.get_in_memory_size(), 3101 - 69 * 31);
    let mut roomy = LirsStorage::default();
    roomy.insert(key(1.0, 1.0, "en"), "a".to_string());
    roomy.evict_if_needed(10);
    assert_eq!(roomy.in_memory_record_count(), 1);
}

#[test]
fn lirs_read_bytes_twice_counts_both() {
    let mut lirs = LirsStorage::default();
    lirs.insert(key(48.0, 17.0, "en"), "a".to_string());
    let bytes = lirs.as_bytes();
    let mut other = LirsStorage::default();
    assert!(other.read_bytes(&bytes));
    assert!(other.read_bytes(&bytes));
    assert_eq!(other.in_memory_record_count(), 2);
    assert_eq!(other.get_in_memory_size(), 2 * bytes.len());
}

#[test]
fn lirs_list_steps() {
    let mut lirs = LirsStorage::default();
    // the LIR limit for a zero memory limit is 9 (95% of ten items)
    lirs.memory_max_size(0);
    for i in 0..12 {
        lirs.insert(key(10.0 + i as f64, 20.0, "en"), format!("a{}", i));
    }
    // slots 9, 10 and 11 are HIR and queued, in that order
    assert_eq!(lirs.dequeue(), Some(9));
    lirs.remove_from_queue(10);
    assert_eq!(lirs.dequeue(), Some(11));
    assert_eq!(lirs.dequeue(), None);
    assert_eq!(lirs.first().unwrap().1, "a11");
    lirs.move_to_stack_top(0);
    assert_eq!(lirs.first().unwrap().1, "a0");
    lirs.prune_stack();
    assert_eq!(lirs.in_memory_record_count(), 12);
    assert_eq!(lirs.last().unwrap().1, "a1");
}
