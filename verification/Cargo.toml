[package]
name = "dice_state"
version = "0.1.0"
edition = "2021"
publish = false

[dependencies]
anyhow = "1"
async-trait = "0.1"
bincode = { version = "2.0.1", default-features = false, features = ["std", "serde"] }
blake3 = "1"
tokio = { version = "1", features = ["rt", "sync", "time"] }
tracing = "0.1"
