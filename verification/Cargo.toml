[package]
name = "blob_chunk"
version = "0.1.0"
edition = "2021"

[dependencies]
bls12_381 = "0.8"
ethers-core = "2"
tiny-keccak = { version = "2", features = ["keccak"] }
serde = { version = "1", features = ["derive"] }

[dev-dependencies]
rand = "0.8"
