[package]
name = "plasma"
version = "0.1.0"
edition = "2021"
publish = false

[dependencies]
sapling-crypto = "*"
jubjub = "*"
bls12_381 = "*"
ff = "*"
group = "*"
pairing = "*"
rand = "*"
