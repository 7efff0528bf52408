[package]
name = "fractran"
version = "0.1.0"
edition = "2021"
publish = false

[dependencies]
rug = { version = "=1.19.2", default-features = false, features = ["integer"] }
gmp-mpfr-sys = { version = "=1.5.3", default-features = false, features = ["use-system-libs"] }
itertools = "=0.15.0"
primal = "=0.3.3"
prime_factorization = "=1.0.5"
clap = { version = "=4.6.7", features = ["derive"] }
rayon = "=1.12.0"
indicatif = { version = "=0.18.6", features = ["rayon"] }

[dev-dependencies]
infinitable = "=1.6.0"
