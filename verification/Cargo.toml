[package]
name = "blips"
version = "0.1.0"
edition = "2021"
publish = false

[dependencies]
fix-rat = { version = "=0.2.0", default-features = false }
atomic = "=0.5.3"
rand = "=0.7.3"
rand_chacha = "=0.2.2"
anti-r = "=0.9.2"
rayon = "=1.12.0"
piston = "=1.0.0"
