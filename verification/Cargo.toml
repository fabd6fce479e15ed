[package]
name = "esm"
version = "0.1.0"
edition = "2021"
publish = false

[dependencies]
flate2 = "1"
nom = "7"
nom-derive = "0.10"
rayon = "1"
