[package]
name = "redis_clone"
version = "0.1.0"
edition = "2021"
publish = false

[dependencies]
anyhow = "1"
atoi = "2"
bytes = "1"
env_logger = "0.11"
glob = "0.3"
log = "0.4"
thiserror = "1"
tokio = { version = "1", features = ["full"] }
