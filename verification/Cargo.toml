[package]
name = "anoma_core"
version = "0.1.0"
edition = "2021"
publish = false

[dependencies]
petgraph = "0.6"
fixedbitset = "0.4"
rand = "0.8"
bytes = "1"
futures = "0.3"
libp2p = { version = "*", default-features = false }
metrics = "0.20"
parking_lot = "0.12"
rayon = "1"
syn = { version = "1", features = ["full"] }
quote = "1"
thiserror = "1"
tokio = { version = "1", features = ["sync"] }
tracing = "0.1"
