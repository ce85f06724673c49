[package]
name = "blob_credits"
version = "0.1.0"
edition = "2021"
publish = false

[dependencies]
blake3 = { version = "1", features = ["pure"] }
data-encoding = "2"
serde = { version = "1", features = ["derive"] }
