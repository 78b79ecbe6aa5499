[package]
name = "metrics-exporter-influx"
version = "0.1.0"
edition = "2021"
publish = false

[dependencies]
anyhow = "1"
chrono = { version = "0.4", default-features = false, features = ["clock", "std"] }
itertools = "0.13"
metrics = "0.24"
metrics-util = "0.19"
quanta = "0.12"
reqwest = { version = "0.12", default-features = false }
thiserror = "1"
tokio = { version = "1", features = ["rt", "rt-multi-thread", "sync", "time"] }
tracing = "0.1"
