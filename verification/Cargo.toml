[package]
name = "bayes-2048"
version = "0.1.0"
edition = "2021"
publish = false

[dependencies]
clap = { version = "4", features = ["derive"] }
crossterm = "0.29"
csv = "1"
indicatif = "*"
rand = { version = "0.9", features = ["small_rng"] }
rand_distr = "0.5"
rayon = "1"
serde = { version = "1", features = ["derive"] }
serde_json = "1"
statrs = "0.18"
