[package]
name = "goro"
version = "0.1.0"
edition = "2021"
publish = false

[dependencies]
clap = { version = "4", features = ["derive"] }
dirs = "*"
futures = "0.3"
gix = "*"
imara-diff = "0.2"
interprocess = "2"
notify = "8"
rayon = "1"
serde = { version = "1", features = ["derive"] }
serde_json = { version = "1", features = ["preserve_order"] }
thiserror = "2"
tree-sitter = "*"
tree-sitter-go = "*"
tree-sitter-highlight = "*"
tree-sitter-javascript = "*"
tree-sitter-json = "*"
tree-sitter-md = "*"
tree-sitter-python = "*"
tree-sitter-rust = "*"
tree-sitter-typescript = "*"
unicode-segmentation = "1"
