[package]
name = "subclip"
version = "0.1.0"
edition = "2021"
publish = false

[dependencies]
srtlib = "*"
anyhow = "*"
chrono = "*"
clap = { version = "*", features = ["derive"] }
env_logger = "*"
log = "*"
rayon = "*"
scopeguard = "*"
tempfile = "*"
walkdir = "*"
