[package]
name = "zkpyc"
version = "0.1.0"
edition = "2021"
publish = false

[dependencies]
zkinterface = "*"
serde = { version = "1", features = ["derive"] }
bincode = "1"
