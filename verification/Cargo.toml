[package]
name = "wsl_dns_agent"
version = "0.1.0"
edition = "2021"
publish = false

[dependencies]
chrono = "0.4"
dirs = "*"
serde = { version = "1", features = ["derive"] }
toml = "*"
