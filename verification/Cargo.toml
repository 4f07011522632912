[package]
name = "keccak_circuit"
version = "0.1.0"
edition = "2021"
publish = false

[dependencies]
sha3 = "0.10"
halo2_proofs = "*"
itertools = "*"
rand = "*"
