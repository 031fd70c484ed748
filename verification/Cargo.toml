[package]
name = "jx"
version = "0.1.0"
edition = "2021"
publish = false

[dependencies]
anyhow = "=1.0.104"
chrono = "=0.4.45"
clap = "=3.2.25"
dirs = "=5.0.1"
env_logger = "=0.10.2"
futures-util = "=0.3.34"
glob = "=0.3.4"
indicatif = "=0.17.11"
log = "=0.4.34"
reqwest = { version = "=0.11.27", default-features = false, features = ["rustls-tls", "stream", "json"] }
serde = { version = "=1.0.229", features = ["derive"] }
serde_json = "=1.0.154"
tokio = { version = "=1.54.1", features = ["full"] }
toml = { version = "=0.8.23", features = ["preserve_order"] }
urlencoding = "=2.1.3"
walkdir = "=2.5.0"
