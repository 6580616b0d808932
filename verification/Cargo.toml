[package]
name = "typeforge"
version = "0.1.0"
edition = "2021"
publish = false

[dependencies]
anyhow = "1"
chrono = { version = "0.4", features = ["serde"] }
crossterm = "0.28"
dirs = "*"
futures-util = { version = "0.3", features = ["sink"] }
rand = "0.8"
ratatui = "0.29"
serde = { version = "1", features = ["derive"] }
serde_json = "1"
sha2 = "0.10"
tokio = { version = "1", features = ["rt", "rt-multi-thread", "net", "sync", "time", "macros"] }
tokio-tungstenite = "*"
tree-sitter = "*"
tree-sitter-c-sharp = "*"
tree-sitter-cpp = "*"
tree-sitter-go = "*"
tree-sitter-java = "*"
tree-sitter-javascript = "*"
tree-sitter-kotlin-ng = "*"
tree-sitter-python = "*"
tree-sitter-rust = "*"
tree-sitter-swift = "*"
tree-sitter-typescript = "*"
two-face = "*"
ureq = "3"
