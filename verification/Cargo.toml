[package]
name = "call_stack"
version = "0.1.0"
edition = "2021"
publish = false

[dependencies]
ar = "*"
cargo-project = "*"
clap = { version = "*", features = ["derive"] }
comfy-table = "*"
env_logger = "*"
failure = "*"
filetime = "*"
log = "*"
petgraph = "*"
rustc-demangle = "*"
rustc_version = "*"
stack-sizes = "*"
walkdir = "*"
xmas-elf = "*"
