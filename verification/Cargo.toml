[package]
name = "tree_tags"
version = "0.1.0"
edition = "2021"
publish = false

[dependencies]
clap = "2.32"
dirs = "1.0"
ignore = "0.4"
libloading = "0.5"
rusqlite = "0.14"
serde = "1.0"
serde_derive = "1.0"
serde_json = "1.0"
tree-sitter = "0.3"
