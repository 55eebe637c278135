[package]
name = "solder-sse"
version = "0.1.0"
edition = "2021"
publish = false

[dependencies]
axum = { version = "0.8", default-features = false, features = ["tokio", "http1", "http2"] }
axum-core = "0.5"
bytes = "1"
futures-core = "0.3"
futures-util = "0.3"
http = "1"
http-body = "1"
http-body-util = "0.1"
pin-project-lite = "0.2"
reqwest = { version = "0.12", default-features = false, features = ["stream", "http2"] }
serde = { version = "1", features = ["derive"] }
serde_json = "1"
thiserror = "2"
tokio = { version = "1", features = ["rt-multi-thread", "macros", "sync", "time", "net", "signal"] }
tokio-stream = { version = "0.1", features = ["sync"] }
tracing = "0.1"
