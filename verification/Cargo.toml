[package]
name = "json_exporter"
version = "0.1.0"
edition = "2021"
publish = false

[dependencies]
serde = { version = "*", features = ["derive"] }
serde_json = "*"
serde_yaml = "*"
url = "*"
log = "*"
env_logger = "*"
clap = { version = "*", features = ["derive"] }
flate2 = "*"
futures = "*"
tokio = { version = "*", features = ["macros", "rt-multi-thread", "sync", "time"] }
reqwest = { version = "*", default-features = false }
actix-web = "*"
