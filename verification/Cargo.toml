[package]
name = "freenet_search"
version = "0.1.0"
edition = "2021"
publish = false

[dependencies]
sha2 = "0.10"
ed25519-dalek = { version = "2", features = ["rand_core", "serde"] }
lzma-rs = "0.3"
unicode-normalization = "0.1"
rand = "0.8"
ciborium = "0.2"
serde = { version = "1", features = ["derive"] }
freenet-stdlib = { version = "*", default-features = false }
clap = { version = "4", features = ["derive"] }
toml = "0.8"
bs58 = "0.5"
dirs = "5"
