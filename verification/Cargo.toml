[package]
name = "kite"
version = "0.1.0"
edition = "2021"
publish = false

[dependencies]
roaring = "=0.10.12"
byteorder = "=1.5.0"
chrono = "=0.4.45"
fnv = "=1.0.7"
serde = { version = "=1.0.229", features = ["derive"] }
serde_json = "=1.0.154"
rocksdb = "=0.8.3"
