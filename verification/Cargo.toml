[package]
name = "tonic_xds"
version = "0.1.0"
edition = "2021"
publish = false

[dependencies]
arc-swap = "1"
dashmap = "6"
futures-core = "0.3"
http = "1"
thiserror = "2"
tokio = { version = "1", features = ["macros", "rt", "sync", "time"] }
tokio-stream = "0.1"
tonic = { version = "0.14", default-features = false }
tower = { version = "0.5", features = ["balance", "buffer", "discover", "load", "util"] }
tracing = "0.1"
