[package]
name = "h2proxy-core"
version = "0.1.0"
edition = "2021"
publish = false

[dependencies]
bytes = "1"
http-body-util = "0.1"
hyper = { version = "1", features = ["http2", "server"] }
hyper-util = { version = "0.1", features = ["tokio"] }
thiserror = "2"
tokio = { version = "1", features = ["full"] }
tracing = "0.1"
