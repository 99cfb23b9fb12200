use geoverse::cache::{after_insert, should_flush};
use geoverse::StorageFlushStrategy;

#[test]
fn never_never_flushes() {
    assert!(!should_flush(&StorageFlushStrategy::Never, 0));
    assert!(!should_flush(&StorageFlushStrategy::Never, 1_000_000));
    assert_eq!(after_insert(&StorageFlushStrategy::Never, 41), (false, 42));
}

#[test]
fn immediately_flushes_every_insert() {
    assert!(should_flush(&StorageFlushStrategy::Immediately, 0));
    assert_eq!(after_insert(&StorageFlushStrategy::Immediately, 0), (true, 0));
}

#[test]
fn record_count_flushes_on_the_nth_insert() {
    let strategy = StorageFlushStrategy::RecordCount(3);
    assert!(!should_flush(&strategy, 2));
    assert!(should_flush(&strategy, 3));
    let mut pending = 0;
    let mut flushes = Vec::new();
    for _ in 0..7 {
        let (flush, next) = after_insert(&strategy, pending);
        flushes.push(flush);
        pending = next;
    }
    assert_eq!(flushes, vec![false, false, true, false, false, true, false]);
    assert_eq!(pending, 1);
}

#[test]
fn record_count_zero_flushes_always() {
    assert!(should_flush(&StorageFlushStrategy::RecordCount(0), 0));
    assert_eq!(after_insert(&StorageFlushStrategy::RecordCount(1), 0), (true, 0));
}
