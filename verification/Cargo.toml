[package]
name = "bevy_flowfield_tiles_plugin"
version = "0.1.0"
edition = "2021"
publish = false

[dependencies]
serde = { version = "=1.0.229", features = ["derive"] }
serde-big-array = "=0.5.1"
ron = "=0.12.3"
photon-rs = "=0.3.3"
petgraph = "0.6"
