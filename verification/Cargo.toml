[package]
name = "peer_routing"
version = "0.1.0"
edition = "2021"
publish = false

[dependencies]
near-crypto = "=0.15.0"
near-primitives = "=0.15.0"
near-network-primitives = "=0.15.0"
cached = { version = "=0.23.0", default-features = false }
rand = "=0.7.3"
tracing = "=0.1.44"
serde = { version = "=1.0.229", features = ["derive"] }
bytesize = "=1.3.3"
conqueue = "=0.4.0"
actix = "=0.13.5"
borsh = "=0.9.3"
num-rational = "=0.3.2"
