[package]
name = "hbbft"
version = "0.1.0"
edition = "2021"
publish = false

[dependencies]
merkle = "=1.11.0"
reed-solomon-erasure = "=3.1.1"
ring = "=0.16.20"

[dev-dependencies]
rand = "=0.4.6"
