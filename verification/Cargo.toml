[package]
name = "sparse_merkle_tree"
version = "0.1.0"
edition = "2021"
publish = false

[dependencies]
plonky2 = "=0.2.2"

[dev-dependencies]
rand = "=0.8.8"
