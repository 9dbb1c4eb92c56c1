[package]
name = "jmap_core"
version = "0.1.0"
edition = "2021"
publish = false

[dependencies]
roaring = "*"
rand = "0.8"
chrono = "0.4"
serde = { version = "1", features = ["derive"] }
mail-builder = "*"
mail-parser = "*"
tokio = { version = "1", features = ["rt", "rt-multi-thread", "sync", "time", "net", "macros"] }
dashmap = "*"
rocksdb = "*"
