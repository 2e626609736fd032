[package]
name = "record_stream"
version = "0.1.0"
edition = "2021"
publish = false

[dependencies]
axum = "*"
chrono = "*"
futures = "*"
tokio = { version = "*", features = ["rt-multi-thread", "macros", "net", "time"] }
tokio-stream = "*"
tower-http = { version = "*", features = ["cors"] }
