[package]
name = "acord"
version = "0.1.0"
edition = "2021"
publish = false

[dependencies]
uuid = { version = "1", features = ["v4"] }
serde = { version = "1", features = ["derive"] }
serde_json = "1"
dirs = "*"
filetime = "0.2"
tree-sitter = "*"
tree-sitter-highlight = "*"
tree-sitter-bash = "*"
tree-sitter-c = "*"
tree-sitter-cpp = "*"
tree-sitter-css = "*"
tree-sitter-go = "*"
tree-sitter-html = "*"
tree-sitter-java = "*"
tree-sitter-javascript = "*"
tree-sitter-json = "*"
tree-sitter-lua = "*"
tree-sitter-make = "*"
tree-sitter-php = "*"
tree-sitter-python = "*"
tree-sitter-ruby = "*"
tree-sitter-rust = "*"
tree-sitter-sequel = "*"
tree-sitter-swift = "*"
tree-sitter-toml-ng = "*"
tree-sitter-typescript = "*"
tree-sitter-yaml = "*"
tree-sitter-zig = "*"
