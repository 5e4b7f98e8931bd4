[package]
name = "beth"
version = "0.1.0"
edition = "2021"
publish = false

[dependencies]
alloy-consensus = "2"
alloy-eips = "2"
alloy-evm = "*"
alloy-primitives = "1"
alloy-rpc-types-engine = "2"
alloy-sol-types = "1"
bitcoin = "0.32"
eyre = "0.6"
hex = "0.4"
revm = "*"
thiserror = "2"
tokio = { version = "1", features = ["rt-multi-thread"] }
tonic = "0.14"
tracing = "0.1"
