[package]
name = "fusion_in_motion"
version = "0.1.0"
edition = "2021"
publish = false

[dependencies]
sha2 = "0.10"
hex = "0.4"
anyhow = "1"
serde = { version = "1", features = ["derive"] }
serde_json = "1"
serde_yaml_ng = "*"
clap = { version = "4", features = ["derive"] }
nalgebra = "*"
prost = "*"
mcap = { version = "*", default-features = false }
