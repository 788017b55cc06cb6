[package]
name = "conditional-ado"
version = "0.1.0"
edition = "2021"
publish = false

[dependencies]
andromeda-std = "*"
cosmwasm-schema = "1.5"
cosmwasm-std = "1.5"
cw-storage-plus = "1.2"
cw2 = "1.1"
serde = { version = "1", default-features = false, features = ["derive"] }
serde-cw-value = "0.7"
serde-json-wasm = "0.5"
