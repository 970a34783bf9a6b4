[package]
name = "codex_switch"
version = "0.1.4"
edition = "2021"
publish = false

[dependencies]
reqwest = { version = "0.12", default-features = false, features = ["stream"] }
axum = "0.8"
tokio = { version = "1", features = ["full"] }
futures = "0.3"
serde = { version = "1", features = ["derive"] }
serde_json = "1"
toml = "0.8"
chrono = "0.4"
rusqlite = { version = "0.32", features = ["bundled"] }
libc = "0.2"
