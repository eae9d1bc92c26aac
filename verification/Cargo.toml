[package]
name = "map_reduce"
version = "0.1.0"
edition = "2021"
publish = false

[dependencies]
anyhow = "1"
prost = "0.10"
tokio = { version = "1", features = ["rt-multi-thread", "macros", "sync", "time"] }
tonic = "0.7"
