[package]
name = "chainhook_hord"
version = "0.1.0"
edition = "2021"
publish = false

[dependencies]
hex = "0.4"
hex-simd = "0.8"
serde_cbor = "0.11"
serde = { version = "1", features = ["derive"] }
toml = "0.5"
clap = { version = "3.2", features = ["derive"] }
ctrlc = "3"
threadpool = "1.8"
crossbeam-channel = "0.5"
rusqlite = { version = "0.27", features = ["bundled"] }
rocksdb = { version = "0.20", default-features = false }
hiro-system-kit = "*"
