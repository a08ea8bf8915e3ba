[package]
name = "tx-index"
version = "0.1.0"
edition = "2021"
publish = false

[dependencies]
alloy-primitives = "1"
eyre = "0.6"
rocksdb = { version = "0.24", default-features = false, features = ["lz4", "bindgen-runtime"] }

[dev-dependencies]
tempfile = "3"
