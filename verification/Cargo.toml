[package]
name = "dense_matmul"
version = "0.1.0"
edition = "2021"

[dependencies]
rayon = "1"
rand = "0.8"
chrono = "0.4"
