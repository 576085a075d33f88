[package]
name = "quant_algos"
version = "0.1.0"
edition = "2021"
publish = false

[dependencies]
rand = "0.8"
rand_distr = "0.4"

[dev-dependencies]
rand_chacha = "0.3"
