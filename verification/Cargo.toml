[package]
name = "socketio_core"
version = "0.1.0"
edition = "2021"
publish = false

[dependencies]
base64 = "0.13"
tokio = { version = "1", features = ["rt-multi-thread", "sync", "time", "macros"] }
reqwest = { version = "0.12", default-features = false }
futures-util = "0.3"
bytes = "1"
http = "1"
serde_json = "1"
tracing = "0.1"
async-trait = "0.1"
