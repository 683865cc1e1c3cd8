[package]
name = "aiken_lsp"
version = "0.1.0"
edition = "2021"
publish = false

[dependencies]
aiken-lang = "=1.1.24"
lsp-types = "=0.94.1"
serde_json = "=1.0.154"
lsp-server = "=0.10.0"
tracing = "=0.1.44"
owo-colors = { version = "=3.5.0", features = ["supports-colors"] }
