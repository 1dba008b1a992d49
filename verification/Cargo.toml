[package]
name = "xuehua"
version = "0.1.0"
edition = "2021"
publish = false

[dependencies]
owo-colors = "=4.4.0"
blake3 = "=1.8.7"
petgraph = "=0.8.3"
serde = { version = "=1.0.229", features = ["derive"] }
serde_json = "=1.0.154"
smol_str = "=0.3.7"
log = "=0.4.35"
postcard = { version = "1", default-features = false, features = ["alloc"] }
