[package]
name = "volume_match"
version = "0.1.0"
edition = "2021"
publish = false

[dependencies]
tfhe = { version = "0.2", features = ["integer", "shortint", "x86_64-unix"] }
rayon = "1"
rand = "0.8"
argh = "0.1"
