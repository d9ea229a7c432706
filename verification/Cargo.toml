[package]
name = "starfish_core"
version = "0.1.0"
edition = "2021"
publish = false

[dependencies]
ahash = "0.8"
bcs = "0.1"
bytes = "1"
fastcrypto = "*"
futures = "0.3"
lru = "0.10"
parking_lot = "0.12"
rand = "0.8"
thiserror = "1"
tokio = { version = "1", features = ["sync", "time", "rt", "macros"] }
tokio-stream = "0.1"
tonic = "0.12"
tracing = "0.1"
