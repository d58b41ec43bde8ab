[package]
name = "where_in_pi"
version = "0.1.0"
edition = "2021"
publish = false

[dependencies]
rug = { version = "=1.19.2", default-features = false, features = ["integer"] }
gmp-mpfr-sys = { version = "*", default-features = false, features = ["use-system-libs"] }
dashmap = "=6.2.1"
ahash = "=0.8.12"
rand = "=0.10.3"
boxcar = "=0.2.14"
rayon = "=1.12.0"
indicatif = "=0.18.6"
