[package]
name = "sequencer"
version = "0.1.0"
edition = "2021"
publish = false

[dependencies]
ark-ed-on-bn254 = "=0.4.0"
ark-serialize = "=0.4.2"
ark-std = "=0.4.0"
blake3 = "=1.8.7"
committable = "=0.2.4"
ethers = { version = "=2.0.14", default-features = false }
rand_chacha = "=0.3.1"
serde = { version = "=1.0.229", features = ["derive"] }
sha3 = "=0.10.9"
