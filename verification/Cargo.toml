[package]
name = "pumpkin_cluster"
version = "0.1.0"
edition = "2021"
publish = false

[dependencies]
postcard = { version = "1", features = ["alloc", "use-std", "experimental-derive"] }
serde = { version = "1", features = ["derive"] }
sha2 = "0.10"
tokio = { version = "1", features = ["sync", "net", "time", "rt", "macros"] }
tracing = "0.1"
xxhash-rust = { version = "0.8", features = ["xxh64"] }
