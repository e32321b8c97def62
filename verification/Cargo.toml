[package]
name = "conventional_commit_helper"
version = "0.1.0"
edition = "2021"
publish = false

[dependencies]
anyhow = "1"
bincode = "1.3"
chrono = "0.4"
clap = { version = "4", features = ["derive"] }
clap-verbosity-flag = "2"
const_format = "0.2"
dialoguer = "0.11"
directories = "5"
env_logger = "0.11"
fancy-regex = "0.13"
file-lock = "2"
git2 = { version = "0.19", default-features = false }
itertools = "0.13"
log = "0.4"
serde = { version = "1", features = ["derive"] }
serde_json = "1"
toml = "0.8"
