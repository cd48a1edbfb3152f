[package]
name = "clob"
version = "0.1.0"
edition = "2021"
publish = false

[dependencies]
async-nats = "=0.50.0"
bytes = "=1.12.1"
chrono = { version = "=0.4.45", default-features = false, features = ["clock", "std", "serde"] }
futures-util = "=0.3.34"
log = "=0.4.34"
ordered-float = "=5.5.0"
serde = { version = "=1.0.229", features = ["derive"] }
serde_json = "=1.0.154"
simple_logger = "=5.2.0"
tokio = { version = "=1.54.1", features = ["rt-multi-thread", "macros", "sync", "time", "net"] }
tokio-stream = "=0.1.19"
tonic = "=0.14.6"
tracing = "=0.1.44"
uuid = "=1.29.0"
