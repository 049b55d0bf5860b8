[package]
name = "mesh_security"
version = "0.1.0"
edition = "2021"
publish = false

[dependencies]
cosmwasm-schema = "=1.5.11"
cosmwasm-std = { version = "=1.5.11", features = ["ibc3", "staking", "cosmwasm_1_2"] }
cw-storage-plus = "=1.2.0"
cw-utils = "=1.0.3"
cw2 = "=1.1.2"
thiserror = "=1.0.69"
