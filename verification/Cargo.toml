[package]
name = "fuzzy_fst"
version = "0.1.0"
edition = "2021"
publish = false

[dependencies]
fst = "*"
