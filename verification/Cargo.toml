[package]
name = "webm_streamer"
version = "0.1.0"
edition = "2021"
publish = false

[dependencies]
anyhow = "*"
axum = { version = "*", features = ["ws"] }
axum-extra = { version = "*", features = ["typed-header"] }
bytes = "*"
chrono = "*"
clap = { version = "*", features = ["derive"] }
dirs = "*"
futures = "*"
hyper = "*"
serde = { version = "*", features = ["derive"] }
serde_json = "*"
tokio = { version = "*", features = ["full"] }
tokio-util = { version = "*", features = ["codec", "io"] }
tower-http = { version = "*", features = ["cors", "trace"] }
tracing = "*"
tracing-subscriber = { version = "*", features = ["env-filter"] }
typed-builder = "*"

[dev-dependencies]
webm-iterable = "*"
