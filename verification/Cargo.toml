[package]
name = "geiger"
version = "0.1.0"
edition = "2021"
publish = false

[dependencies]
cargo = "=0.56.0"
cargo-platform = "=0.1.9"
cargo-util = "=0.1.2"
colored = "=1.9.4"
env_logger = "=0.5.13"
failure = "=0.1.8"
petgraph = "=0.4.13"
proc-macro2 = "=0.4.30"
structopt = "=0.2.18"
syn = { version = "=0.15.44", features = ["full", "visit"] }
walkdir = "=2.5.0"
