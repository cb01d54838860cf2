[package]
name = "iqdb_cache"
version = "0.5.0"
edition = "2021"
publish = false

[dependencies]
iqdb-index = "*"
iqdb-types = "*"
serde = { version = "1", features = ["derive"] }
