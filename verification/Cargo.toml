[package]
name = "coincync"
version = "0.1.0"
edition = "2021"
publish = false

[dependencies]
blake3 = "1"
borsh = { version = "1", features = ["derive"] }
chacha20poly1305 = "0.10"
curve25519-dalek = { version = "4.1", features = ["rand_core", "digest", "zeroize", "serde"] }
dashmap = "5"
hex = "0.4"
merlin = "3"
once_cell = "1"
rand = "0.8"
rand_core = "0.6"
rayon = "1"
serde = { version = "1", features = ["derive"] }
serde_json = "1"
sha3 = "0.10"
subtle = "2"
tari_bulletproofs_plus = "0.4"
tracing = "0.1"
zeroize = { version = "1", features = ["derive"] }

[dev-dependencies]
rand_chacha = "0.3"
