//! A reverse geocode cache: addresses keyed by coordinates and a language
//! code, kept in memory by one of several replacement strategies and
//! serialised into a flat record format for persistence.

pub mod cache;
pub mod cache_config;
pub mod cache_key;
pub mod errors;
pub mod geo;
pub mod storage;
mod text;

pub use cache_config::{GeoCacheConfig, GeoCacheConfigBuilder};
pub use errors::GeoCacheError;
pub use geo::{convert_lang_to_u16, convert_u16_to_lang};
pub use storage::deque::DequeStorage;
pub use storage::lirs::LirsStorage;
pub use storage::lru::LruStorage;
pub use storage::StorageFlushStrategy;
