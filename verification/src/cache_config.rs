use std::path::PathBuf;

use vstd::prelude::*;

use crate::storage::StorageFlushStrategy;

verus! {

/// std's `PathBuf`, opaque to proofs.
#[verifier::external_type_specification]
#[verifier::external_body]
pub struct ExPathBuf(std::path::PathBuf);

/// Default memory limit: 100 MiB.
pub const DEFAULT_MEMORY_MAX_SIZE: usize = 104857600;

/// Default disk limit: 1 GiB.
pub const DEFAULT_DISK_MAX_SIZE: usize = 1073741824;

/// Configuration of a cache.
pub struct GeoCacheConfig {
    /// Path to a persistence disk.
    pub storage_file_path: Option<PathBuf>,
    /// Limit of memory usage.
    pub memory_max_size: usize,
    /// Limit of persistence disk usage.
    pub disk_max_size: usize,
    /// Storage flush strategy.
    pub storage_flush_strategy: StorageFlushStrategy,
}

impl Default for GeoCacheConfig {
    /// No persistence, 100 MiB of memory, 1 GiB of disk, never flushed.
    fn default() -> (r: GeoCacheConfig)
        ensures
            r.storage_file_path is None,
            r.memory_max_size == DEFAULT_MEMORY_MAX_SIZE,
            r.disk_max_size == DEFAULT_DISK_MAX_SIZE,
            r.storage_flush_strategy == StorageFlushStrategy::Never,
    {
        GeoCacheConfig {
            storage_file_path: None,
            memory_max_size: DEFAULT_MEMORY_MAX_SIZE,
            disk_max_size: DEFAULT_DISK_MAX_SIZE,
            storage_flush_strategy: StorageFlushStrategy::Never,
        }
    }
}

impl GeoCacheConfig {
    /// A builder with nothing set.
    pub fn builder() -> (r: GeoCacheConfigBuilder)
        ensures
            r.spec_storage_file_path() is None,
            r.spec_memory_max_size() is None,
            r.spec_disk_max_size() is None,
            r.spec_storage_flush_strategy() is None,
    {
        GeoCacheConfigBuilder::default()
    }
}

/// Builds a [`GeoCacheConfig`]; what is not set keeps its default.
pub struct GeoCacheConfigBuilder {
    storage_file_path: Option<PathBuf>,
    memory_max_size: Option<usize>,
    disk_max_size: Option<usize>,
    storage_flush_strategy: Option<StorageFlushStrategy>,
}

impl Default for GeoCacheConfigBuilder {
    fn default() -> (r: GeoCacheConfigBuilder)
        ensures
            r.spec_storage_file_path() is None,
            r.spec_memory_max_size() is None,
            r.spec_disk_max_size() is None,
            r.spec_storage_flush_strategy() is None,
    {
        GeoCacheConfigBuilder {
            storage_file_path: None,
            memory_max_size: None,
            disk_max_size: None,
            storage_flush_strategy: None,
        }
    }
}

impl GeoCacheConfigBuilder {
    pub closed spec fn spec_storage_file_path(&self) -> Option<PathBuf> {
        self.storage_file_path
    }

    pub closed spec fn spec_memory_max_size(&self) -> Option<usize> {
        self.memory_max_size
    }

    pub closed spec fn spec_disk_max_size(&self) -> Option<usize> {
        self.disk_max_size
    }

    pub closed spec fn spec_storage_flush_strategy(&self) -> Option<StorageFlushStrategy> {
        self.storage_flush_strategy
    }

    /// Sets the path of the persistence disk, converted by `Into`.
    pub fn storage_file_path<P: Into<PathBuf>>(self, file_path: P) -> (r: GeoCacheConfigBuilder)
        ensures
            r.spec_storage_file_path() matches Some(p) && call_ensures(
                <P as Into<PathBuf>>::into,
                (file_path,),
                p,
            ),
            r.spec_memory_max_size() == self.spec_memory_max_size(),
            r.spec_disk_max_size() == self.spec_disk_max_size(),
            r.spec_storage_flush_strategy() == self.spec_storage_flush_strategy(),
    {
        let mut b = self;
        b.storage_file_path = Some(file_path.into());
        b
    }

    /// Sets the flush strategy.
    pub fn storage_flush_strategy(self, flush_strategy: StorageFlushStrategy) -> (r:
        GeoCacheConfigBuilder)
        ensures
            r.spec_storage_flush_strategy() == Some(flush_strategy),
            r.spec_storage_file_path() == self.spec_storage_file_path(),
            r.spec_memory_max_size() == self.spec_memory_max_size(),
            r.spec_disk_max_size() == self.spec_disk_max_size(),
    {
        let mut b = self;
        b.storage_flush_strategy = Some(flush_strategy);
        b
    }

    /// Sets the memory limit.
    pub fn memory_max_size(self, size: usize) -> (r: GeoCacheConfigBuilder)
        ensures
            r.spec_memory_max_size() == Some(size),
            r.spec_storage_file_path() == self.spec_storage_file_path(),
            r.spec_disk_max_size() == self.spec_disk_max_size(),
            r.spec_storage_flush_strategy() == self.spec_storage_flush_strategy(),
    {
        let mut b = self;
        b.memory_max_size = Some(size);
        b
    }

    /// Sets the disk limit.
    pub fn disk_max_size(self, size: usize) -> (r: GeoCacheConfigBuilder)
        ensures
            r.spec_disk_max_size() == Some(size),
            r.spec_storage_file_path() == self.spec_storage_file_path(),
            r.spec_memory_max_size() == self.spec_memory_max_size(),
            r.spec_storage_flush_strategy() == self.spec_storage_flush_strategy(),
    {
        let mut b = self;
        b.disk_max_size = Some(size);
        b
    }

    /// The configuration: each setting that was set, else its default.
    pub fn build(self) -> (r: GeoCacheConfig)
        ensures
            r.storage_file_path == self.spec_storage_file_path(),
            r.memory_max_size == match self.spec_memory_max_size() {
                Some(v) => v,
                None => DEFAULT_MEMORY_MAX_SIZE,
            },
            r.disk_max_size == match self.spec_disk_max_size() {
                Some(v) => v,
                None => DEFAULT_DISK_MAX_SIZE,
            },
            r.storage_flush_strategy == match self.spec_storage_flush_strategy() {
                Some(v) => v,
                None => StorageFlushStrategy::Never,
            },
    {
        let default = GeoCacheConfig::default();
        GeoCacheConfig {
            storage_file_path: self.storage_file_path,
            storage_flush_strategy: self.storage_flush_strategy.unwrap_or(
                default.storage_flush_strategy,
            ),
            memory_max_size: self.memory_max_size.unwrap_or(default.memory_max_size),
            disk_max_size: self.disk_max_size.unwrap_or(default.disk_max_size),
        }
    }
}

} // verus!
