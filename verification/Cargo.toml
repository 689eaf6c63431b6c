[package]
name = "ruulang"
version = "0.1.0"
edition = "2021"
publish = false

[dependencies]
async-recursion = "1"
clap = "4"
notify = "4"
serde = { version = "1", features = ["derive"] }
serde_json = "1"
tokio = { version = "1", features = ["full"] }
toml = "0.7"
tower-lsp = "0.20"
