[package]
name = "polycommit"
version = "0.1.0"
edition = "2021"
publish = false

[dependencies]
snarkvm-curves = "*"
snarkvm-fields = "*"
snarkvm-utilities = "*"
rand = "*"
