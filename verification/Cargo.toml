[package]
name = "git_craft"
version = "0.1.0"
edition = "2021"
publish = false

[dependencies]
naga = { version = "*", features = ["wgsl-in"] }
crossbeam-channel = "0.5"
log = "0.4"
env_logger = "*"
