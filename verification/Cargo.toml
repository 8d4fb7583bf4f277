[package]
name = "tick_tock_tau"
version = "0.1.0"
edition = "2021"
publish = false

[dependencies]
malachite = "*"
malachite-float = "*"
rayon = "*"
argh = "*"
mimalloc = "*"
