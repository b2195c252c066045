[package]
name = "groundcontrol"
version = "0.1.0"
edition = "2021"
publish = false

[dependencies]
anyhow = "=1.0.104"
clap = { version = "=4.6.7", features = ["derive"] }
serde = { version = "=1.0.229", features = ["derive"] }
serde_json = "=1.0.154"
tree-sitter = "=0.27.1"
tree-sitter-md = "=0.5.4"
