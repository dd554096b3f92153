[package]
name = "bliss-playlist-optimizer"
version = "0.1.0"
edition = "2021"
publish = false

[dependencies]
bincode = "1.3"
jsonschema = { version = "*", default-features = false }
ndarray = "0.16"
rand = "0.8"
rayon = "1"
serde = { version = "1", features = ["derive"] }
serde_json = "1"
sha2 = "0.10"
