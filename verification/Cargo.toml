[package]
name = "riffy"
version = "0.1.0"
edition = "2021"
publish = false

[dependencies]
serde_json = "1"
regex = "1"
matchit = "0.7"
shell-escape = "0.1"
metrics = "0.24"
chrono = { version = "0.4", default-features = false, features = ["clock", "std"] }
serde = { version = "1", features = ["derive"] }
axum = "0.7"
tokio = { version = "1", features = ["rt-multi-thread", "macros", "net", "signal", "sync", "time", "io-util"] }
reqwest = { version = "0.12", default-features = false }
bytes = "1"
config = { version = "0.14", default-features = false, features = ["yaml"] }
garde = { version = "0.20", features = ["derive"] }
clap = { version = "4", features = ["derive"] }
anyhow = "1"
thiserror = "1"
tracing = "0.1"
async-compression = { version = "0.4", features = ["tokio", "gzip", "zlib", "brotli", "zstd"] }
arc-swap = "1"
rand = "0.8"
async-trait = "0.1"
humantime-serde = "1"
metrics-exporter-prometheus = { version = "0.16", default-features = false }
redis = { version = "0.27", default-features = false, features = ["tokio-comp", "streams", "connection-manager", "aio"] }
