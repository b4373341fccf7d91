[package]
name = "bigarray"
version = "0.1.0"
edition = "2021"
publish = false

[dependencies]
rocksdb = "*"
serde_json = "*"
v8 = "*"

[dev-dependencies]
tempfile = "*"
