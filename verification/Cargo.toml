[package]
name = "lib_storage"
version = "0.1.0"
edition = "2021"
publish = false

[dependencies]
anyhow = "1"
serde = { version = "1", features = ["derive"] }
bincode = "1"
blake3 = { version = "1", features = ["pure"] }
hex = "0.4"
tokio = { version = "1", features = ["time", "rt", "macros"] }
uuid = { version = "1", features = ["v4"] }
