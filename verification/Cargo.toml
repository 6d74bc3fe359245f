[package]
name = "tarfs_rs"
version = "0.1.0"
edition = "2021"
publish = false

[dependencies]
fuser = "*"
libc = "*"
clap = { version = "*", features = ["derive"] }
env_logger = "*"

[dev-dependencies]
tar = "*"
