[package]
name = "graph_engine"
version = "0.1.0"
edition = "2021"
publish = false

[dependencies]
arc-swap = "=1.9.3"
arrow-array = "=58.4.1"
axum = "=0.7.9"
bytes = "=1.12.1"
chrono = "=0.4.45"
futures = { version = "=0.3.34", default-features = false, features = ["std"] }
iceberg = { version = "=0.10.1", default-features = false }
k8s-openapi = { version = "=0.29.0", features = ["latest"] }
kube = { version = "=5.0.0", default-features = false, features = ["client", "ring"] }
once_cell = "=1.21.4"
prometheus = { version = "=0.13.4", default-features = false }
serde = { version = "=1.0.229", features = ["derive"] }
serde_json = "=1.0.154"
tokio = { version = "=1.54.1", features = ["macros", "net", "rt-multi-thread", "sync", "time"] }
tonic = "=0.12.3"
tower-http = { version = "=0.6.11", features = ["fs"] }
tracing = "=0.1.44"
tracing-subscriber = { version = "=0.3.23", features = ["env-filter", "json"] }
xxhash-rust = { version = "=0.8.19", features = ["xxh3"] }
