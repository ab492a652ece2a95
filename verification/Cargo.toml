[package]
name = "gams_lsp"
version = "0.1.0"
edition = "2021"
publish = false

[dependencies]
regex = "1"
ropey = "1"
tree-sitter = "*"
tower-lsp = "0.20"
tokio = { version = "1", features = ["macros", "rt-multi-thread", "io-std"] }
dashmap = "*"
