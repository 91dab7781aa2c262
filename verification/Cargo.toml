[package]
name = "quantum_simulator"
version = "0.1.0"
edition = "2021"
publish = false

[dependencies]
bitvec = "1"
num = "0.4"
regex = "1"
