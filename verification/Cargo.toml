[package]
name = "tonel-smalltalk-language-server"
version = "0.1.0"
edition = "2021"
publish = false

[dependencies]
anyhow = "1"
dashmap = "6"
tokio = { version = "1", features = ["macros", "rt-multi-thread", "io-std"] }
tower-lsp = "0.20"
tree-sitter = "0.26"
walkdir = "2"

[dev-dependencies]
tempfile = "3"
tree-sitter-python = "*"
tree-sitter-scala = "*"
