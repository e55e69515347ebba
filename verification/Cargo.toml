[package]
name = "saved-core"
version = "0.1.0"
edition = "2021"
publish = false

[dependencies]
argon2 = "0.5"
base64 = "0.22"
blake3 = "1"
chacha20poly1305 = "0.10"
chrono = "0.4"
ed25519-dalek = { version = "2", features = ["rand_core"] }
hex = "0.4"
hkdf = "0.12"
prost = "0.13"
rand = "0.8"
sha2 = "0.10"
serde = { version = "1", features = ["derive"] }
serde_json = "1"
fastrand = "2"
