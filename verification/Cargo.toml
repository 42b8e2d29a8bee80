[package]
name = "prompthub"
version = "0.1.0"
edition = "2021"
publish = false

[dependencies]
regex = "1"
semver = "1"
sha2 = "0.10"
hex = "0.4"
dirs = "5"
serde = { version = "1", features = ["derive"] }
serde_json = "1"
serde_yaml = "0.9"
anyhow = "1"
thiserror = "1"
clap = { version = "4", features = ["derive"] }
colored = "2"
walkdir = "2"
reqwest = { version = "0.12", default-features = false, features = ["blocking", "rustls-tls", "multipart"] }
arboard = { version = "3", default-features = false }
tokio = { version = "1", features = ["full"] }
tracing = "0.1"
tracing-subscriber = { version = "0.3", features = ["env-filter"] }
rmcp = { version = "*", features = ["server", "transport-io", "macros"] }
axum = { version = "0.7", features = ["multipart"] }
rusqlite = { version = "*", features = ["bundled"] }
bcrypt = "*"
rand = "0.8"
chrono = "0.4"
