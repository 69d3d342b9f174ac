[package]
name = "codegraph"
version = "0.1.0"
edition = "2021"
publish = false

[dependencies]
petgraph = "*"
tree-sitter = "*"
tree-sitter-typescript = "*"
tree-sitter-javascript = "*"
ignore = "*"
anyhow = "*"
clap = { version = "*", features = ["derive"] }

[dev-dependencies]
tempfile = "*"
