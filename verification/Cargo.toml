[package]
name = "pumpkin_solver"
version = "0.1.0"
edition = "2021"
publish = false

[dependencies]
bitfield = "0.14"
itertools = "0.12"
clap = { version = "4", features = ["derive"] }
env_logger = "0.10"
log = "0.4"
rand = { version = "0.8", features = ["small_rng"] }
