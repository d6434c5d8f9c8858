[package]
name = "increment_version"
version = "0.1.0"
edition = "2021"
publish = false

[dependencies]
anyhow = "*"
colored = "*"
env_logger = "*"
log = "*"
serde_json = "*"
structopt = "0.3"
toml = "*"
