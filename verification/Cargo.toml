[package]
name = "algebraic_immunity"
version = "0.1.0"
edition = "2021"

[dependencies]
itertools = "*"
rayon = "*"
