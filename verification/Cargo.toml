[package]
name = "oas_forge"
version = "0.1.0"
edition = "2021"
publish = false

[dependencies]
serde_yaml = "0.9"
serde_json = "1"
serde = { version = "1", features = ["derive"] }
syn = { version = "2", features = ["full", "visit", "parsing", "printing", "extra-traits"] }
proc-macro2 = { version = "1", features = ["span-locations"] }
regex = "1"
walkdir = "2"
clap = { version = "4", features = ["derive"] }
toml = "0.8"
log = "0.4"
env_logger = "0.11"
colored = "2"
anyhow = "1"
thiserror = "1"
