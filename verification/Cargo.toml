[package]
name = "buffdb"
version = "0.1.0"
edition = "2021"
publish = false

[dependencies]
serde = { version = "=1.0.229", features = ["derive"] }
serde_json = "=1.0.154"
chrono = { version = "=0.4.45", features = ["serde"] }
thiserror = "=2.0.21"
duckdb = { version = "=1.20000.1", default-features = false }
