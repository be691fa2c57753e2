[package]
name = "rank_propagation"
version = "0.1.0"
edition = "2021"
publish = false

[dependencies]
timely = "=0.12.0"
log = "=0.4.34"
rand = { version = "0.8", features = ["small_rng"] }
