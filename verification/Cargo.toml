[package]
name = "tarsk"
version = "0.1.0"
edition = "2021"
publish = false

[dependencies]
anyhow = "1"
automerge = "*"
chrono = { version = "0.4", default-features = false }
crossterm = "0.25"
hyper = { version = "0.14", features = ["server"] }
lazy_static = "1"
reqwest = { version = "0.11", default-features = false }
serde_json = "1"
tokio = { version = "1", features = ["full"] }
tokio-stream = { version = "0.1", features = ["net"] }
tui = { version = "0.19", default-features = false, features = ["crossterm"] }
warp = { version = "0.3", default-features = false }
