[package]
name = "sysbus"
version = "0.1.0"
edition = "2021"
publish = false

[dependencies]
tokio = { version = "*", features = ["rt-multi-thread", "macros", "signal", "sync", "time"] }
tracing = "*"
tracing-subscriber = { version = "*", features = ["env-filter", "json"] }
parking_lot = "*"
lazy_static = "*"
serde = { version = "*", features = ["derive"] }
serde_json = "*"
