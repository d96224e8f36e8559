[package]
name = "universal_lsif"
version = "0.1.0"
edition = "2021"
publish = false

[dependencies]
anyhow = "*"
ignore = "*"
indicatif = "*"
jsonrpc-lite = "*"
languageserver-types = "*"
serde = "*"
serde_derive = "*"
serde_json = "*"
structopt = "*"
toml = "*"
