[package]
name = "rhuffman"
version = "0.1.0"
edition = "2021"
publish = false

[dependencies]
bit-vec = "0.6"
serde = { version = "1", features = ["derive"] }
serde_bytes = "0.11"
rmp-serde = "1"
structopt = "0.3"
