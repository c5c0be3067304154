[package]
name = "prompts"
version = "0.1.0"
edition = "2021"
publish = false

[dependencies]
anyhow = "=1.0.104"
axum = "=0.8.9"
clap = { version = "=4.6.7", features = ["derive", "env"] }
reqwest = "=0.13.5"
rmcp = { version = "=1.8.0", features = ["server", "transport-io", "transport-streamable-http-server"] }
serde = { version = "=1.0.229", features = ["derive"] }
serde_json = "=1.0.154"
serde-saphyr = "=2.0.0"
thiserror = "=2.0.21"
tokio = { version = "=1.54.1", features = ["full"] }
tokio-util = "=0.7.20"
tracing = "=0.1.44"
tracing-subscriber = { version = "=0.3.23", features = ["env-filter"] }
