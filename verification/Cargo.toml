[package]
name = "ann_search"
version = "0.1.0"
edition = "2021"
publish = false

[dependencies]
faer = { version = "*", default-features = false, features = ["std"] }
num-traits = "0.2"
rand = { version = "0.9", features = ["small_rng"] }
rayon = "1"
thousands = "0.2"
