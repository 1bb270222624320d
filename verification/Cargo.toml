[package]
name = "price_store"
version = "0.1.0"
edition = "2021"
publish = false

[dependencies]
uuid = { version = "=1.27.0", features = ["v4", "serde"] }
axum = "=0.7.9"
tokio = { version = "=1.53.2", features = ["rt-multi-thread", "net", "macros"] }
serde = { version = "=1.0.229", features = ["derive"] }
