[package]
name = "lightgraph"
version = "0.1.0"
edition = "2021"
publish = false

[dependencies]
dashmap = "5"
crossbeam = "0.8"
bincode = "1"
serde = { version = "1", features = ["derive"] }
serde_json = "1"
parking_lot = "0.12"
roaring = "0.10"
fst = "0.4"
ordered-float = { version = "4", features = ["serde"] }
atomic = "0.6"
