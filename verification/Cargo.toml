[package]
name = "srgn"
version = "0.1.0"
edition = "2021"
publish = false

[dependencies]
clap = { version = "=4.6.7", features = ["derive"] }
regex = "=1.13.1"
tree-sitter = "=0.22.6"
tree-sitter-c-sharp = "=0.21.3"
tree-sitter-rust = "=0.21.2"
tree-sitter-typescript = "=0.21.2"
unescape = "=0.1.0"
