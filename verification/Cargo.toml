[package]
name = "mrv_executor"
version = "0.1.0"
edition = "2021"
publish = false

[dependencies]
anyhow = "1.0"
bytes = "1"
clap = "2.33"
ed25519-dalek = "1.0.1"
env_logger = "0.7"
futures = "0.3"
log = "0.4"
rand = "0.7"
tokio = { version = "1", features = ["full"] }
tokio-util = { version = "0.6", features = ["codec"] }
