[package]
name = "squid"
version = "0.1.0"
edition = "2021"
publish = false

[dependencies]
anyhow = "=1.0.104"
clap = { version = "=4.6.7", features = ["derive"] }
env_logger = "=0.11.11"
gray_matter = "=0.2.9"
hyper = { version = "=0.14.32", features = ["full"] }
markdown = "=1.0.0"
notify = "=6.1.1"
serde = { version = "=1.0.229", features = ["derive"] }
tinylang = "=0.6.1"
tokio = { version = "=1.54.1", features = ["full"] }
toml = "=1.1.8"
tower = { version = "=0.4.13", features = ["make"] }
tower-http = { version = "=0.4.4", features = ["fs"] }
