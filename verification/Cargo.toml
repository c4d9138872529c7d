[package]
name = "checkpoint_backup"
version = "0.1.0"
edition = "2021"
publish = false

[dependencies]
chrono = "0.4"
fern = { version = "0.7", features = ["colored"] }
log = "0.4"
walkdir = "2"
xxhash-rust = { version = "0.8", features = ["xxh3"] }
zip = { version = "2", default-features = false, features = ["deflate"] }
