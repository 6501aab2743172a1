[package]
name = "polski_ls"
version = "0.1.0"
edition = "2021"
publish = false

[dependencies]
clap = { version = "*", features = ["derive"] }
dirs = "*"
serde_json = "*"
tokio = { version = "*", features = ["full"] }
tower-lsp-server = "*"
