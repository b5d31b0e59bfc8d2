[package]
name = "p4_analyzer"
version = "0.1.0"
edition = "2021"
publish = false

[dependencies]
lsp-types = "=0.94.1"
serde = { version = "=1.0.229", features = ["derive"] }
serde_json = "=1.0.154"
regex = "1"
