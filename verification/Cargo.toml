[package]
name = "dynamo_parsers"
version = "0.1.0"
edition = "2021"
rust-version = "1.95"
publish = false

[dependencies]
regex = "1"
ruff_python_ast = "<0.0.11"
ruff_python_parser = "<0.0.11"
serde_json = "1"
