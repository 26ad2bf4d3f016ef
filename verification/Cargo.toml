[package]
name = "silero_vad"
version = "0.3.0"
edition = "2021"
publish = false

[dependencies]
abi_stable = "=0.11.3"
async-trait = "=0.1.92"
ort = { version = "=2.0.0-rc.10", default-features = false, features = ["std", "load-dynamic"] }
parking_lot = "=0.12.5"
remotemedia-plugin-sdk = "=0.5.0"
reqwest = { version = "=0.12.28", default-features = false, features = ["rustls-tls"] }
serde = { version = "1", features = ["derive"] }
serde_json = "=1.0.154"
tokio = { version = "=1.54.1", features = ["sync", "rt", "fs"] }
tracing = "=0.1.44"
