[package]
name = "smt"
version = "0.1.0"
edition = "2021"
publish = false

[dependencies]
anyhow = "1"
ark-std = "0.4"
ff = "0.13"
halo2_gadgets = "0.5"
halo2_proofs = "0.3"
log = "0.4"
pasta_curves = "0.5"
rayon = "1"

[dev-dependencies]
rand = "0.8"
