[package]
name = "nasal_ls"
version = "0.1.0"
edition = "2021"
publish = false

[dependencies]
lsp-server = "*"
lsp-types = "*"
serde = "*"
serde_json = "*"
