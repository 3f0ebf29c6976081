[package]
name = "db"
version = "0.1.0"
edition = "2021"
publish = false

[dependencies]
anyhow = "=1.0.104"
chrono = { version = "=0.4.45", features = ["serde"] }
futures = "=0.3.34"
serde = { version = "=1.0.229", features = ["derive"] }
tarpc = { version = "=0.38.0", features = ["full"] }
tokio = { version = "=1.53.2", features = ["full"] }
