[package]
name = "golden_dkg"
version = "0.1.0"
edition = "2021"
publish = false

[dependencies]
sha2 = "0.10"
sha3 = "0.10"
digest = "0.10"
jubjub = "0.10"
bls12_381 = "0.8"
blstrs = "0.7"
blst = "0.3"
ff = "0.13"
group = "0.13"
subtle = "2"
rand_core = "0.6"
zeroize = "1"
merlin = "3"
curve25519-dalek = "4"
thiserror = "2"
serde = { version = "1", features = ["derive"] }

[dev-dependencies]
rand_chacha = "0.3"
