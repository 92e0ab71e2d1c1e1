[package]
name = "stratum"
version = "0.1.0"
edition = "2021"
publish = false

[dependencies]
sha2 = "0.10"
hex = "0.4"
sled = "0.34"
dashmap = "5"
chrono = { version = "0.4", features = ["serde"] }
serde = { version = "1", features = ["derive"] }
serde_json = "1"
axum = "0.7"
tokio = { version = "1", features = ["full"] }
tower-http = { version = "0.5", features = ["cors"] }
clap = { version = "4", features = ["derive"] }
anyhow = "1"
thiserror = "1"
tracing-subscriber = { version = "0.3", features = ["env-filter"] }
rand = "0.8"
ordered-float = "4"
bincode = "1"
