[package]
name = "rayon_cond"
version = "0.1.0"
edition = "2021"
publish = false

[dependencies]
either = "=1.19.0"
itertools = "*"
rayon = "=1.12.0"
