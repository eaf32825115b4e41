[package]
name = "elgamal"
version = "0.1.0"
edition = "2021"
publish = false

[dependencies]
num-bigint-dig = { version = "0.8", features = ["rand"] }
num-traits = "0.2"
primal = "0.3"
rand = "0.8"
sha2 = "0.10"
