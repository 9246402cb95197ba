[package]
name = "meilidb-data"
version = "0.1.0"
edition = "2021"
publish = false

[dependencies]
arc-swap = "1"
bincode = "1.3"
fst = { version = "0.3", default-features = false }
rmp-serde = "1"
rmpv = { version = "1", features = ["with-serde"] }
sdset = "0.4"
serde = { version = "1", features = ["derive"] }
sled = "0.34"
