[package]
name = "tokimo-kvdb"
version = "0.1.0"
edition = "2021"
publish = false

[dependencies]
crc32fast = "1"
thiserror = "1"

[dev-dependencies]
rand = "0.8"
