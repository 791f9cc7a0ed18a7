[package]
name = "sieci"
version = "0.1.0"
edition = "2021"
publish = false

[dependencies]
petgraph = "0.6"
ndarray = "0.15"
rand = "0.8"
log = "0.4"
env_logger = "0.10"
colored = "2"
