[package]
name = "transmitic_core"
version = "0.8.0"
edition = "2021"
publish = false

[dependencies]
aes-gcm = "0.10"
base64 = "0.21"
crc32fast = "1"
rand_core = { version = "0.5", features = ["getrandom"] }
ring = "0.17"
serde = { version = "1", features = ["derive"] }
serde_json = "1"
x25519-dalek = "1.2"
