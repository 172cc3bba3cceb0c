[package]
name = "metadata_generator"
version = "0.1.0"
edition = "2021"
publish = false

[dependencies]
blake3 = "*"
serde = { version = "*", features = ["derive"] }
serde_json = "*"
clap = { version = "*", features = ["derive"] }
memmap = "*"
indicatif = "*"
anyhow = "*"
image = "*"
