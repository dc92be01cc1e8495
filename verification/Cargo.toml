[package]
name = "s5_groups"
version = "0.1.0"
edition = "2021"
publish = false

[dependencies]
anyhow = "1"
async-trait = "0.1"
base64 = "0.22"
blake3 = { version = "1", features = ["pure"] }
bytes = "1"
ed25519-dalek = "2"
futures = "0.3"
hex = "0.4"
iroh = { version = "*", default-features = false }
minicbor = { version = "*", features = ["alloc", "derive"] }
postcard = { version = "1", features = ["alloc"] }
rand = "0.8"
serde = { version = "1", features = ["derive"] }
tokio-util = { version = "0.7", features = ["io"] }
tracing = "0.1"
