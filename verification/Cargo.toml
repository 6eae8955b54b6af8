[package]
name = "typora"
version = "0.1.0"
edition = "2021"
publish = false

[dependencies]
ropey = "1.6.1"
comrak = { version = "=0.59.0", default-features = false }
tree-sitter = "=0.19.5"
tree-sitter-markdown = "0.7.1"
serde = { version = "1", features = ["derive"] }
serde_json = "1"
serde_yaml_ng = "0.10.0"
toml = "0.9.8"
thiserror = "2"
notify = "8.2.1"
tracing = "0.1"
tracing-subscriber = { version = "0.3", features = ["env-filter"] }
