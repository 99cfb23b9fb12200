use std::path::PathBuf;

use geoverse::{GeoCacheConfig, StorageFlushStrategy};

#[test]
fn geocache_config_builder() {
    let geocache_builder = GeoCacheConfig::builder()
        .storage_file_path("./geoverse_db.bin")
        .memory_max_size(555)
        .disk_max_size(333)
        .build();

    assert_eq!(geocache_builder.memory_max_size, 555);
    assert_eq!(geocache_builder.disk_max_size, 333);
    assert_eq!(
        geocache_builder.storage_file_path,
        Some(PathBuf::from("./geoverse_db.bin"))
    );
}

#[test]
fn geocache_config_builder_defaults() {
    let config = GeoCacheConfig::builder().build();
    assert_eq!(config.storage_file_path, None);
    assert_eq!(config.memory_max_size, 100 * 1024 * 1024);
    assert_eq!(config.disk_max_size, 1024 * 1024 * 1024);
    assert_eq!(config.storage_flush_strategy, StorageFlushStrategy::Never);
}

#[test]
fn geocache_config_builder_flush_strategy() {
    let config = GeoCacheConfig::builder()
        .storage_flush_strategy(StorageFlushStrategy::RecordCount(10))
        .build();
    assert_eq!(config.storage_flush_strategy, StorageFlushStrategy::RecordCount(10));
    assert_eq!(config.memory_max_size, 100 * 1024 * 1024);
}

#[test]
fn geocache_config_default_matches_builder() {
    let config = GeoCacheConfig::default();
    assert_eq!(config.storage_file_path, None);
    assert_eq!(config.memory_max_size, 104_857_600);
    assert_eq!(config.disk_max_size, 1_073_741_824);
    assert_eq!(StorageFlushStrategy::default(), StorageFlushStrategy::Never);
}
