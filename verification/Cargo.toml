[package]
name = "snarkvm_core"
version = "0.1.0"
edition = "2021"
publish = false

[dependencies]
hex = "0.4"
rand = "0.8"
rayon = "1"
serde = { version = "1", features = ["derive"] }
