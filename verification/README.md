# geoverse

A reverse-geocoding cache: addresses keyed by coordinates (in microdegrees)
and a two-letter language code, held in memory by one of three replacement
strategies and written to a flat record file for persistence.

- `src/` is the verified library.
  - `cache_key.rs`: cache keys, their 20-byte textual form and its parsing.
  - `geo.rs`: packing and unpacking language codes.
  - `storage/mod.rs`: the record format (write, check, read), the eviction
    count, and the flush strategy type.
  - `storage/deque.rs`, `storage/lru.rs`, `storage/lirs.rs`: insertion-order,
    least-recently-used (on the `lru` crate) and LIRS storages, each with
    its model and its laws (read after write, write then read).
  - `cache.rs`: when pending inserts are flushed.
  - `cache_config.rs`: the configuration and its builder.
- `app/` holds what is not verified: the persistence file, conversions of
  floating-point degrees, the storage trait over the three storages, the
  cache that ties them together, and the error and raw key types with their
  `thiserror` and `serde` derives.
- `tests/` exercises the library on concrete values.
