[package]
name = "trace_viewer_core"
version = "0.1.0"
edition = "2021"
publish = false

[dependencies]
indexmap = "*"
itertools = "*"
serde = { version = "*", features = ["derive"] }
serde_json = "*"
websocket = "*"
anyhow = "*"
either = "*"
