[package]
name = "blockchain_rust"
version = "0.1.0"
edition = "2021"
publish = false

[dependencies]
bitcoincash-addr = "*"
chrono = "0.4"
clap = "4"
ed25519-dalek = "2"
env_logger = "*"
log = "0.4"
rand = "0.8"
ripemd = "*"
sha256 = "*"
sled = "0.34"
