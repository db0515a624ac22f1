[package]
name = "aks_primality_test"
version = "0.1.0"
edition = "2021"
publish = false

[dependencies]
env_logger = "=0.11.11"
log = "=0.4.34"
malachite = { version = "=0.14.0", default-features = false, features = ["naturals_and_integers", "std"] }
rayon = "=1.12.0"
wasm-bindgen = "=0.2.129"
