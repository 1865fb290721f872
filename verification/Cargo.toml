[package]
name = "storage_engine"
version = "0.1.0"
edition = "2021"
publish = false

[dependencies]
base64 = "0.13"
bincode = "1"
crc = "1"
probabilistic-collections = { version = "*", features = ["serde"] }
serde = "*"
serde_derive = "*"
serde_json = "*"
sha2 = "*"

[dev-dependencies]
rand = "0.8"
