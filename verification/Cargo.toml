[package]
name = "open_task"
version = "0.1.0"
edition = "2021"
publish = false

[dependencies]
arc-swap = "1"
thiserror = "2"
tracing = "0.1"
tracing-subscriber = { version = "0.3", features = ["env-filter", "fmt"] }
