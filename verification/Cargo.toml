[package]
name = "neuron_wire"
version = "0.3.0"
edition = "2021"
publish = false

[dependencies]
crc32fast = "=1.5.4"
sha2 = "=0.10.9"
ed25519-dalek = { version = "=2.2.0", features = ["rand_core"] }
rand = "=0.8.8"
serde = { version = "1", features = ["derive"] }
serde_json = "1"
toml = "0.8"
