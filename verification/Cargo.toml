[package]
name = "mpc_lookup"
version = "0.1.0"
edition = "2021"
publish = false

[dependencies]
ark-ff = "0.3"
ark-bls12-377 = "0.3"
ark-poly = "0.3"
ark-poly-commit = "0.3"
ark-serialize = "0.3"
ark-std = "0.3"
blake2 = "0.9"
digest = "0.9"
rand = "0.8"
num-bigint = "0.4"
structopt = "0.3"
log = "0.4"
zeroize = "1"
derivative = "2"
