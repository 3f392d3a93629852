[package]
name = "blog-rs"
version = "0.1.0"
edition = "2021"
publish = false

[dependencies]
anyhow = "1"
chrono = "0.4"
clap = { version = "4", features = ["derive"] }
env_logger = "0.11"
katex = "0.4"
log = "0.4"
notify = "6"
percent-encoding = "2"
pulldown-cmark = "0.12"
regex = "1"
reqwest = { version = "0.12", default-features = false, features = ["blocking", "rustls-tls"] }
serde = { version = "1", features = ["derive"] }
serde_json = "1"
serde_yaml = "0.9"
syntect = { version = "5", default-features = false, features = ["default-fancy"] }
tera = "1"
tiny_http = "0.12"
toml = "0.8"
walkdir = "2"
