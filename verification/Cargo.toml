[package]
name = "wagmi_staking"
version = "0.1.0"
edition = "2021"
publish = false

[dependencies]
cosmwasm-std = "0.16"
cw721 = "0.9"
cw-storage-plus = "0.9"
serde = { version = "1.0", features = ["derive"] }
schemars = "0.8"
