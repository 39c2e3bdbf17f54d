[package]
name = "treelars"
version = "0.1.0"
edition = "2021"
publish = false

[dependencies]
rug = { version = "=1.19.2", default-features = false, features = ["rational"] }
gmp-mpfr-sys = { version = "~1.5", default-features = false, features = ["use-system-libs"] }
serde = { version = "=1.0.229", features = ["derive"] }
toml = "=0.5.11"

[dev-dependencies]
approx = "=0.5.1"
