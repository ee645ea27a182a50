[package]
name = "http_server_rust"
version = "0.1.0"
edition = "2021"
publish = false

[dependencies]
libc = "0.2"
hyper = { version = "0.14", features = ["server", "http1", "runtime", "tcp"] }
tokio = { version = "1", features = ["full"] }

[dev-dependencies]
serde_json = "1"
