[package]
name = "geoverse"
version = "0.0.1"
edition = "2021"
publish = false

[dependencies]
lru = "*"
serde = { version = "1", features = ["derive"] }
thiserror = "*"
