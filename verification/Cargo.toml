[package]
name = "sumcheck"
version = "0.1.0"
edition = "2021"
publish = false

[dependencies]
ark-ff = "0.4"
ark-poly = "0.4"
ark-std = "0.4"
ark-linear-sumcheck = "0.4"
ark-test-curves = { version = "0.4", features = ["bls12_381_scalar_field", "bls12_381_curve"] }
rand = "0.8"
itertools = "0.12"
rayon = "1"
peak_alloc = "0.2"
tracing = "0.1"
lazy_static = "1"
