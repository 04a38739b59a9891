[package]
name = "ringxkem"
version = "0.1.0"
edition = "2021"
publish = false

[dependencies]
chacha20poly1305 = "0.10"
curve25519-dalek = { version = "4", features = ["rand_core"] }
ed25519-dalek = { version = "2", features = ["rand_core"] }
hkdf = "0.12"
pqcrypto-kyber = "0.8"
pqcrypto-traits = "0.3"
rand = "0.8"
sha2 = "0.10"
