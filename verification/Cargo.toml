[package]
name = "wm_core"
version = "0.1.0"
edition = "2021"
publish = false

[dependencies]
anyhow = "1"
serde = { version = "1", features = ["derive"] }
tokio = { version = "1", features = ["sync", "rt"] }
tracing = "0.1"
tray-icon = "0.19"
uuid = { version = "=1.27.0", features = ["v4", "serde"] }
