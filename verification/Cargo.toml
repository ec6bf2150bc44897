[package]
name = "markov_notes"
version = "0.1.0"
edition = "2021"
publish = false

[dependencies]
chrono = "=0.4.45"
rand = "=0.8.8"
uuid = { version = "=1.29.0", features = ["v4"] }
serde = { version = "=1.0.229", features = ["derive"] }
serde_json = "=1.0.154"
rusqlite = { version = "*", features = ["bundled"] }
sqlx = { version = "*", default-features = false, features = ["sqlite", "runtime-tokio"] }
