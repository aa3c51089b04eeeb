[package]
name = "zstrings"
version = "0.1.0"
edition = "2021"
publish = false

[dependencies]
anyhow = "*"
clap = { version = "*", features = ["derive"] }
env_logger = "*"
indicatif = { version = "*", features = ["rayon"] }
log = "*"
memmap = "*"
rayon = "*"
