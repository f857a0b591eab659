[package]
name = "bitmasher"
version = "0.1.0"
edition = "2021"
publish = false

[dependencies]
ring = "*"
rand = "0.8"
clap = { version = "4", features = ["derive"] }
better-panic = "*"
log = "*"
