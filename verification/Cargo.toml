[package]
name = "fork_multi_test"
version = "0.1.0"
edition = "2021"
publish = false

[dependencies]
bech32 = "=0.9.1"
num-bigint = "=0.4.8"
cosmwasm-std = "=1.5.11"
cosmwasm-vm = "=1.5.11"
anyhow = "=1.0.104"
serde = { version = "=1.0.229", features = ["derive"] }
tokio = { version = "=1.53.2", features = ["rt-multi-thread", "time"] }
tonic = "=0.10.2"
cosmrs = { version = "=0.15.0", features = ["grpc", "cosmwasm"] }
