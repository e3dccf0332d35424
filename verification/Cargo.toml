[package]
name = "contexter"
version = "0.1.0"
edition = "2021"
publish = false

[dependencies]
actix-cors = "0.7"
actix-web = "4"
base64 = "0.22"
constant_time_eq = "0.3"
dirs = "5"
env_logger = "0.11"
hex = "0.4"
ignore = "0.4"
log = "0.4"
rand = "0.8"
regex = "1"
serde = { version = "1", features = ["derive"] }
serde_json = "1"
sha2 = "0.10"
structopt = "0.3"
tokio = { version = "1", features = ["sync", "rt-multi-thread", "macros"] }
