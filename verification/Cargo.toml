[package]
name = "bsdiff"
version = "0.2.1"
edition = "2021"
publish = false

[dependencies]
rayon = "1"
