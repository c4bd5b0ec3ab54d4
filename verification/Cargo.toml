[package]
name = "chortke"
version = "0.1.0"
edition = "2021"
publish = false

[dependencies]
axum = "0.8"
axum-metrics = "*"
axum-valid = { version = "*", default-features = false, features = ["basic", "validify"] }
bincode = "1.3"
blake3 = "1"
clap = { version = "4", features = ["derive"] }
figment = { version = "0.10", features = ["toml", "env"] }
http = "1"
metrics-exporter-prometheus = { version = "*", default-features = false }
serde = { version = "1", features = ["derive"] }
serde_json = "1"
slab = "0.4"
thiserror = "2"
time = "0.3"
tokio = { version = "1", features = ["rt-multi-thread", "macros", "signal", "fs", "io-util", "net"] }
tokio-util = "0.7"
tower-http = { version = "0.6", features = ["cors", "request-id", "trace"] }
tracing = "0.1"
tracing-subscriber = { version = "0.3", features = ["json"] }
utoipa = "5"
utoipa-swagger-ui = { version = "9", features = ["axum", "vendored"] }
uuid = { version = "1", features = ["v4"] }
validify = "*"
zstd = "0.13"
