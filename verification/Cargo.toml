[package]
name = "witnet_vanity"
version = "0.1.0"
edition = "2021"
publish = false

[dependencies]
secp256k1 = { version = "*", features = ["rand"] }
sha2 = "*"
digest = "*"
num_cpus = "*"
clap = "*"
indicatif = "*"
number_prefix = "*"

[dev-dependencies]
bech32 = "*"
