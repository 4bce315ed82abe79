[package]
name = "cryptanalysis"
version = "0.1.0"
edition = "2021"
publish = false

[dependencies]
aes = "0.8"
cbc = "0.1"
curve25519-dalek = { version = "4", features = ["digest"] }
digest = "0.10"
ed25519-dalek = "1.0.1"
hex = "0.4"
num = "0.4"
num-bigint = { version = "0.4", features = ["rand"] }
num-integer = "0.1"
num-traits = "0.2"
rand = "0.8"
rand_chacha = "0.3"
rand_distr = "0.4"
rayon = "1"
sha2 = "0.10"
