[package]
name = "meridian"
version = "0.1.0"
edition = "2021"
publish = false

[dependencies]
rust_decimal = "=1.43.0"
uuid = { version = "=1.29.0", features = ["v4", "serde"] }
serde = { version = "=1.0.229", features = ["derive"] }
thiserror = "=2.0.21"
tracing = "=0.1.44"
metrics = "=0.24.6"
tokio = { version = "=1.54.1", features = ["sync", "time", "macros", "rt-multi-thread"] }
alloy = { version = "=0.8.3", features = ["contract", "provider-http", "signer-local", "rpc-types", "network"] }
