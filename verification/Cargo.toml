[package]
name = "injm"
version = "0.1.0"
edition = "2021"
publish = false

[dependencies]
anyhow = "1"
clap = { version = "4", features = ["derive"] }
glob = "0.3"
ignore = "0.4"
serde = { version = "1", features = ["derive"] }
serde_json = "1"
similar = "2"
tabled = "*"
thiserror = "2"
toml = "*"
tree-sitter-language-pack = "*"
