[package]
name = "clob"
version = "0.1.0"
edition = "2021"
publish = false

[dependencies]
pinocchio = "0.8"
pinocchio-associated-token-account = "0.1"
pinocchio-pubkey = "0.2"
pinocchio-system = "0.2"
pinocchio-token = "0.3"
solana-instruction = "2"
solana-pubkey = { version = "2", features = ["curve25519"] }
thiserror = "2"
