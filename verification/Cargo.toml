[package]
name = "sparse_index"
version = "0.1.0"
edition = "2021"
publish = false

[dependencies]
semver = "*"
atomicwrites = "*"
parking_lot = "*"
