[package]
name = "matching_engine"
version = "0.1.0"
edition = "2021"
publish = false

[dependencies]
env_logger = "*"
futures = "*"
log = "*"
rdkafka = "*"
serde_json = "*"
tokio = { version = "*", features = ["macros", "rt-multi-thread"] }
