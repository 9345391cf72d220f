[package]
name = "arkworks-phase2"
version = "0.1.0"
edition = "2021"
publish = false

[dependencies]
ark-bls12-381 = "*"
ark-bn254 = "*"
ark-ec = "*"
ark-ff = "*"
ark-groth16 = "*"
ark-poly = "*"
ark-relations = "*"
ark-serialize = "*"
ark-std = "*"
blake3 = "*"
rand = "0.8"
rand_chacha = "0.3"
thiserror = "*"

[dev-dependencies]
ark-r1cs-std = "*"
ark-snark = "*"
