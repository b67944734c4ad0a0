[package]
name = "bilinker"
version = "0.1.0"
edition = "2021"
publish = false

[dependencies]
sha2 = "0.10"
hex = "0.4"
anyhow = "1"
serde = { version = "1", features = ["derive"] }
serde_yaml_ng = "0.10"
serde_json = "1"
toml = "0.8"
tree-sitter = "0.25"
tree-sitter-java = "0.23"
tree-sitter-rust = "0.24"
tree-sitter-yaml = "0.7"
tree-sitter-md = "0.3"
tree-sitter-typescript = "0.23"
streaming-iterator = "0.1"
