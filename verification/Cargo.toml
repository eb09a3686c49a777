[package]
name = "kv_store_lib"
version = "0.1.0"
edition = "2021"
publish = false

[dependencies]
priority-queue = "*"
chrono = "0.4"
serde_json = "1"
serde = { version = "1", features = ["derive"] }
parking_lot = "0.12"
tokio = { version = "1", features = ["rt-multi-thread", "macros", "time"] }
axum = "0.6"
log = "0.4"
env_logger = "*"
dotenv = "0.15"
envy = "0.4"
