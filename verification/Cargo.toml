[package]
name = "wbte"
version = "0.1.0"
edition = "2021"
publish = false

[dependencies]
ark-bls12-381 = "0.5"
ark-ec = "0.5"
ark-ff = "0.5"
ark-poly = "0.5"
ark-serialize = "0.5"
ark-std = "0.5"
blst = "0.3"
blstrs = { version = "0.7", features = ["serde"] }
ff = "0.13"
group = "0.13"
merlin = "3"
pairing = "0.23"
rand_core = { version = "0.6", features = ["getrandom"] }
rayon = "1"
serde = { version = "1", features = ["derive"] }
sha2 = "0.10"

[dev-dependencies]
bincode = "1"
