[package]
name = "wm"
version = "0.1.0"
edition = "2021"
publish = false

[dependencies]
uuid = { version = "1", features = ["v4"] }
anyhow = "1"
tracing = "0.1"
serde = { version = "1", features = ["derive"] }
