[package]
name = "hexsnake"
version = "0.1.0"
edition = "2021"
publish = false

[dependencies]
rand = "0.9"
rand_pcg = "0.9"
serde = { version = "1", features = ["derive"] }
serde_json = "1"
axum = "0.8"
tokio = { version = "1", features = ["rt-multi-thread", "macros", "net", "signal", "sync"] }
tower-http = { version = "0.6", features = ["cors", "fs", "trace"] }
rusqlite = { version = "*", features = ["bundled"] }
tracing = "0.1"
tracing-subscriber = { version = "0.3", features = ["env-filter"] }
log = "0.4"
env_logger = "*"
