[package]
name = "jindex"
version = "0.1.0"
edition = "2021"
publish = false

[dependencies]
anyhow = "*"
clap = { version = "*", features = ["derive"] }
itoa = "*"
nix = { version = "*", features = ["signal"] }
serde_json = "*"
unicode-ident = "*"
