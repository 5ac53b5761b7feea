[package]
name = "game_core"
version = "0.1.0"
edition = "2021"
publish = false

[dependencies]
crossbeam-channel = "*"
tokio = { version = "*", features = ["rt-multi-thread", "sync", "net", "signal", "time", "macros"] }
axum = { version = "*", features = ["ws"] }
futures = "*"
tower-http = { version = "*", features = ["cors"] }
serde = { version = "*", features = ["derive"] }
serde_json = "*"
rand = "*"
