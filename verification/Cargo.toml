[package]
name = "microcad_parser"
version = "0.1.0"
edition = "2021"
publish = false

[dependencies]
regex = "1"
thiserror = "1"
anyhow = "1"
walkdir = "2"
rustfmt-wrapper = "*"
rctree = "*"
strum = { version = "0.26", features = ["derive"] }
