[package]
name = "texo-pnr"
version = "0.1.0"
edition = "2021"
publish = false

[dependencies]
libm = "0.2"
rayon = "1"
