[package]
name = "bundle_diagram"
version = "0.1.0"
edition = "2021"
publish = false

[dependencies]
petgraph = "0.6"
base64 = "0.22"
deflate = "1.0"
serde_json = "1"
serde = { version = "1", features = ["derive"] }
serde_yaml = "0.9"
clap = { version = "4", features = ["derive"] }
thiserror = "1"
