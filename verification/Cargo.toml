[package]
name = "spaceproof_merkle"
version = "0.1.0"
edition = "2021"
publish = false

[dependencies]
sapling-crypto_ce = "=0.1.3"
rand = "=0.4.6"
hex = "=0.4.3"
num-bigint = "=0.4.8"
num-traits = "=0.2.19"
serde = "=1.0.229"
serde_derive = "=1.0.229"
