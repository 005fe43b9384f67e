[package]
name = "stark_primitives"
version = "0.1.0"
edition = "2021"
publish = false

[dependencies]
sha3 = "0.10"
digest = "0.10"
serde = { version = "1", features = ["derive"] }
bincode = "1"
