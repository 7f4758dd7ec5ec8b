[package]
name = "conserve"
version = "0.1.0"
edition = "2021"
publish = false

[dependencies]
blake2-rfc = "0.2"
snap = "1"
lru = "0.12"
thousands = "0.2"
globset = "0.4"
serde = { version = "1", features = ["derive"] }
serde_json = "1"
clap = { version = "4", features = ["derive"] }
chrono = "0.4"
