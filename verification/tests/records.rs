use geoverse::cache_key::CacheKey;
use geoverse::storage::{check_records, on_delete_items_count, parse_records};
use geoverse::{DequeStorage, LirsStorage, LruStorage};

fn record(raw: &[u8], address: &[u8]) -> Vec<u8> {
    let mut v = raw.to_vec();
    v.push(address.len() as u8);
    v.extend_from_slice(address);
    v
}

#[test]
fn records_parse_in_file_order() {
    let mut bytes = record(b"sk;48164582;17184710", b"Bratislava");
    bytes.extend(record(b"cs;50073658;14418540", b"Praha"));
    assert!(check_records(&bytes));
    let (entries, consumed) = parse_records(&bytes);
    assert_eq!(consumed, bytes.len());
    assert_eq!(entries.len(), 2);
    assert_eq!(entries[0].1, "Bratislava");
    assert_eq!(entries[1].0, CacheKey::try_from_microdeg(50073658, 14418540, "cs").unwrap());
    assert_eq!(entries[1].1, "Praha");
}

#[test]
fn records_ignore_a_short_tail() {
    let mut bytes = record(b"sk;48164582;17184710", b"a");
    bytes.extend_from_slice(b"0123456789012345678");
    assert!(check_records(&bytes));
    let (entries, consumed) = parse_records(&bytes);
    assert_eq!(entries.len(), 1);
    assert_eq!(consumed, 22);
}

#[test]
fn records_refused() {
    // the length byte runs past the end
    let mut bytes = record(b"sk;48164582;17184710", b"abc");
    bytes.pop();
    assert!(!check_records(&bytes));
    // twenty bytes but no length byte
    assert!(!check_records(b"sk;48164582;17184710"));
    // a key that does not decode
    assert!(!check_records(&record(b"sk;4816x582;17184710", b"a")));
}

#[test]
fn records_invalid_utf8_is_replaced() {
    let bytes = record(b"sk;48164582;17184710", &[0x61, 0xFF, 0x62]);
    let (entries, _) = parse_records(&bytes);
    assert_eq!(entries[0].1, "a\u{FFFD}b");
    let mut deque = DequeStorage::default();
    deque.read_bytes(&bytes);
    assert_eq!(deque.first().unwrap().1, "a\u{FFFD}b");
    assert_eq!(deque.get_in_memory_size(), 24);
    // the decoded address is longer than the bytes read
    let mut lirs = LirsStorage::default();
    assert!(lirs.read_bytes(&bytes));
    assert_eq!(lirs.get_in_memory_size(), 21 + 5);
    let mut lru = LruStorage::default();
    lru.read_bytes(&bytes);
    assert_eq!(lru.get_in_memory_size(), 24);
}

#[test]
fn delete_count_is_a_tenth_at_ten_percent() {
    assert_eq!(on_delete_items_count(3100, 1000, 100), 10);
    assert_eq!(on_delete_items_count(100, 1000, 100), 10);
    assert_eq!(on_delete_items_count(99, 1000, 100), 0);
    assert_eq!(on_delete_items_count(3100, 0, 100), 0);
    assert_eq!(on_delete_items_count(3100, 1000, 0), 0);
    assert_eq!(on_delete_items_count(3100, 1000, 9), 0);
    assert_eq!(on_delete_items_count(3100, 1000, 25), 2);
}
