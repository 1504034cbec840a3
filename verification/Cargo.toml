[package]
name = "honest_shamir"
version = "0.1.0"
edition = "2021"
publish = false

[dependencies]
honest = "*"
rand_core = { version = "0.9", features = ["os_rng"] }
zeroize = "1"

[dev-dependencies]
rand_chacha = "0.9"
