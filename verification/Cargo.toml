[package]
name = "name_history"
version = "0.1.0"
edition = "2021"
publish = false

[dependencies]
chrono = "0.4"
zstd = "0.11"
serde = { version = "1", features = ["derive"] }
serde_json = "1"
clap = { version = "3", features = ["derive"] }
log = "0.4"
simplelog = "0.12"
thiserror = "1"
