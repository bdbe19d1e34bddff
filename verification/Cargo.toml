[package]
name = "dir_cmp"
version = "0.1.0"
edition = "2021"
publish = false

[dependencies]
regex = "1"
log = "0.4"
clap = { version = "4", features = ["derive"] }
env_logger = "0.11"
