[package]
name = "rcompact"
version = "0.1.0"
edition = "2021"
publish = false

[dependencies]
flate2 = "*"
zstd = "*"
lz4_flex = "*"
clap = { version = "*", features = ["derive"] }
