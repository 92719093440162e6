[package]
name = "backend"
version = "0.1.0"
edition = "2021"
publish = false

[dependencies]
actix-files = "0.6"
actix-multipart = "0.7"
actix-web = "4"
chrono = { version = "0.4", features = ["serde"] }
env_logger = "0.11"
log = "0.4"
sanitize-filename = "*"
serde = { version = "1", features = ["derive"] }
serde_json = "1"
sqlx = { version = "0.8", default-features = false, features = ["sqlite", "runtime-tokio"] }
uuid = { version = "1", features = ["v4"] }
