[package]
name = "ntt"
version = "0.1.0"
edition = "2021"
publish = false

[dependencies]
concrete-ntt = "=0.2.0"
rand_core = { version = "=0.6.4", features = ["getrandom"] }
