[package]
name = "bloaty_metafile"
version = "0.1.0"
edition = "2021"
publish = false

[dependencies]
cargo-lock = "*"
clap = { version = "*", features = ["derive"] }
csv = "*"
serde_json = "*"
serde-metafile = "*"
