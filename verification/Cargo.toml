[package]
name = "tile_traffic"
version = "0.1.0"
edition = "2021"
publish = false

[dependencies]
cli-hist = "*"
ratatui = "0.29"
tokio = { version = "1", features = ["full"] }
reqwest = "0.12"
clap = { version = "4", features = ["derive"] }
anyhow = "1"
env_logger = "0.11"
log = "0.4"
futures = "0.3"
