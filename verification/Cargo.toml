[package]
name = "tapline"
version = "0.1.0"
edition = "2021"
publish = false

[dependencies]
anyhow = "1"
clap = { version = "4", features = ["derive"] }
crossterm = "0.28"
encoding_rs = "0.8"
libc = "0.2"
rodio = "0.20"
