[package]
name = "evm_pool"
version = "0.1.0"
edition = "2021"
publish = false

[dependencies]
alloy-primitives = "0.8"

[dev-dependencies]
rand = "0.8"
