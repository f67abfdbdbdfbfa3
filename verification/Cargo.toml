[package]
name = "hanoi_core"
version = "0.1.0"
edition = "2021"
publish = false

[dependencies]
bytemuck = "1"
rand = "0.9"
serde = { version = "1", features = ["derive"] }
serde_json = "1"
clap = { version = "4", features = ["derive"] }
tokio = { version = "1", features = ["full"] }
axum = "0.8"
tower-http = { version = "0.6", features = ["cors", "trace", "decompression-gzip"] }
reqwest = { version = "0.12", default-features = false, features = ["json"] }
futures = "0.3"
kiddo = "*"
arrow = { version = "*", default-features = false, features = ["ipc"] }
chrono = "0.4"
csv = "1"
statrs = "*"
tracing = "0.1"
tracing-subscriber = { version = "0.3", features = ["env-filter", "json"] }
tracing-appender = "0.2"
tracing-tree = "*"
