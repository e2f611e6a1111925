[package]
name = "sentinel"
version = "0.5.0"
edition = "2021"
publish = false

[dependencies]
anyhow = "1"
lsp-types = "0.94"
notify = "6"
rayon = "1"
serde = { version = "1", features = ["derive"] }
serde_json = "1"
tokio = { version = "1", features = ["rt-multi-thread", "macros", "sync", "time"] }
toml = "0.8"
tree-sitter = "0.20"
tree-sitter-ruby = "0.20"
walkdir = "2"
