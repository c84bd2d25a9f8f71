[package]
name = "sse"
version = "0.1.0"
edition = "2021"
publish = false

[dependencies]
futures-util = "0.3"
http-body-util = "0.1"
hyper = { version = "1", features = ["client", "http1"] }
hyper-rustls = { version = "0.27", default-features = false, features = ["http1", "native-tokio", "ring"] }
hyper-util = { version = "0.1", features = ["client", "client-legacy", "http1", "tokio"] }
pin-project-lite = "0.2"
serde = { version = "1", features = ["derive"] }
serde_json = "1"
thiserror = "2"
