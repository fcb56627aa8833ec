[package]
name = "maple_cli"
version = "0.1.0"
edition = "2021"
publish = false

[dependencies]
anyhow = "1"
bytecount = "0.6"
fuzzy-matcher = "0.3"
lazy_static = "1"
rayon = "1"
regex = "1"
serde_json = "1"
