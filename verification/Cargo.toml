[package]
name = "wad_math"
version = "0.1.0"
edition = "2021"
publish = false

[dependencies]
arrayref = "*"
num-derive = "*"
num-traits = "*"
solana-program = "*"
thiserror = "*"
