[package]
name = "suibase_daemon"
version = "0.1.0"
edition = "2021"
publish = false

[dependencies]
anyhow = "=1.0.104"
axum = "=0.6.20"
jsonrpsee = { version = "=0.20.4", features = ["server", "macros"] }
log = "=0.4.34"
reqwest = { version = "=0.11.27", default-features = false }
serde = { version = "=1.0.229", features = ["derive"] }
tokio = { version = "=1.54.1", features = ["full"] }
tokio-graceful-shutdown = "=0.13.0"
