[package]
name = "xmark"
version = "0.1.0"
edition = "2021"
publish = false

[dependencies]
pulldown-cmark = "0.8"
memchr = "2"
textwrap = "0.11"
clap = { version = "4", features = ["derive"] }
serde = { version = "1", features = ["derive"] }
toml = "0.8"
eyre = "0.6"
