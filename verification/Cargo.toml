[package]
name = "dataflow"
version = "0.1.0"
edition = "2021"
publish = false

[dependencies]
base64 = "0.13"
bincode = "1"
byteorder = "1"
petgraph = "0.6"
rmp-serde = "1"
serde = { version = "1", features = ["derive"] }
serde_json = "1"
yazi = "0.1"
