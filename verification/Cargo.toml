[package]
name = "kv_router"
version = "0.1.0"
edition = "2021"
publish = false

[dependencies]
rustc-hash = "=2.1.3"
serde = { version = "=1.0.229", features = ["derive"] }
tracing = "=0.1.44"

[dev-dependencies]
serde_json = "=1.0.154"
