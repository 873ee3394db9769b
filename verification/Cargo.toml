[package]
name = "zkp_c_coloring"
version = "0.1.0"
edition = "2021"
publish = false

[dependencies]
blake3 = "*"
sha3 = "*"
rand = "*"
hex = "*"
serde = { version = "*", features = ["derive"] }
bincode = "1"
clap = { version = "*", features = ["derive"] }
