[package]
name = "crack"
version = "0.1.0"
edition = "2021"
publish = false

[dependencies]
anyhow = "=1.0.104"
bimap = "=0.6.3"
clap = { version = "=4.6.7", features = ["derive"] }
clap_complete = "=4.6.11"
petgraph = "=0.8.3"
regex = "1"
reqwest = { version = "=0.13.5", features = ["blocking"] }
semver = { version = "=1.0.28", features = ["serde"] }
serde = { version = "=1.0.229", features = ["derive"] }
serde_json = "=1.0.154"
toml = "=1.1.8"
