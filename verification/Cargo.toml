[package]
name = "scalarff"
version = "0.1.0"
edition = "2021"
publish = false

[dependencies]
num-bigint = "*"
num-integer = "*"
rand = "*"
colored = "*"
ark-bn254 = "*"
ark-ff = "*"
ark-std = "*"
curve25519-dalek = { version = "*", features = ["group"] }
ff = "*"
twenty-first = "*"
