[package]
name = "mmdb"
version = "0.1.0"
edition = "2021"
publish = false

[dependencies]
tiny-keccak = { version = "=2.0.2", features = ["keccak"] }
serde = { version = "=1.0.229", features = ["derive"] }
