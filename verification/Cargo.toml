[package]
name = "riddle_core"
version = "0.1.0"
edition = "2021"
publish = false

[dependencies]
axum = { version = "=0.8.9", features = ["ws"] }
tokio = { version = "=1.54.1", features = ["macros", "rt-multi-thread", "net", "sync"] }
tower-http = { version = "=0.6.11", features = ["fs"] }
