[package]
name = "probe"
version = "0.1.0"
edition = "2021"
publish = false

[dependencies]
anyhow = "1"
atty = "0.2"
bincode = "1"
clap = { version = "4", features = ["derive"] }
dirs = "5"
ignore = "0.4"
rayon = "1"
serde = { version = "1", features = ["derive"] }
serde_yaml = "0.9"
tantivy = "0.22"
tree-sitter = "0.20"
tree-sitter-java = "0.20"

[dev-dependencies]
tempfile = "3"
