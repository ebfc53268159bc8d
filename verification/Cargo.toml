[package]
name = "musicnode"
version = "0.1.0"
edition = "2021"
publish = false

[dependencies]
anyhow = "1"
axum = "=0.6.20"
celestia-rpc = "=1.3.0"
celestia-types = "=1.3.0"
futures = "0.3"
hex = "0.4"
log = "0.4"
pretty_env_logger = "0.5"
regex = "1"
reqwest = { version = "=0.11.27", default-features = false, features = ["rustls-tls", "json"] }
serde = { version = "1", features = ["derive"] }
serde_json = "1"
tokio = { version = "1", features = ["full"] }
