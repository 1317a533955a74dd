[package]
name = "stock_ticker"
version = "0.1.0"
edition = "2021"
publish = false

[dependencies]
async-nats = "*"
axum = "*"
chrono = "*"
futures = "*"
rand = "*"
reqwest = { version = "*", default-features = false, features = ["json"] }
serde = { version = "*", features = ["derive"] }
serde_json = "*"
tokio = { version = "*", features = ["full"] }
