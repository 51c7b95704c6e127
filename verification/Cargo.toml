[package]
name = "snippets_ls"
version = "0.1.0"
edition = "2021"
publish = false

[dependencies]
toml = "*"
directories = "*"
serde = "*"
serde_json = "*"
lsp-server = "*"
lsp-types = "*"
