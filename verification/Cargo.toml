[package]
name = "argmin"
version = "0.1.0"
edition = "2021"
publish = false

[dependencies]
argmin-math = "0.5"
rand = "0.9"
rand_distr = "0.5"
rand_xoshiro = "0.7"
rayon = "1"
serde = { version = "1", features = ["derive"] }
