[package]
name = "asp_ls"
version = "0.1.0"
edition = "2021"
publish = false

[dependencies]
anyhow = "=1.0.104"
lsp-server = "=0.7.9"
lsp-types = "=0.95.1"
regex-syntax = "=0.8.11"
serde = { version = "=1.0.229", features = ["derive"] }
serde_json = "=1.0.154"
walkdir = "=2.5.0"
zed_extension_api = "=0.7.0"

[dev-dependencies]
regex = "=1.13.1"
