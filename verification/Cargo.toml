[package]
name = "shiitake_server"
version = "0.1.0"
edition = "2021"
publish = false

[dependencies]
axum = "0.6"
tokio = { version = "1", features = ["rt", "macros"] }
serde = { version = "1", features = ["derive"] }
serde_json = "1"
sysinfo = "0.29"
nix = "0.26"
thread-priority = "*"
thiserror = "1"
