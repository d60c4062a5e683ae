[package]
name = "bridge_core"
version = "0.1.0"
edition = "2021"
publish = false

[dependencies]
solana-keccak-hasher = { version = "=3.1.0", features = ["sha3"] }
solana-secp256k1-recover = "=3.3.0"

[dev-dependencies]
libsecp256k1 = "=0.7.2"
