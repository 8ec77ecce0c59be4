[package]
name = "cluster_routing"
version = "0.1.0"
edition = "2021"
publish = false

[dependencies]
redis-protocol = "4"
rand = "0.8"
tokio = { version = "1", features = ["sync", "rt"] }
arcstr = "1"
bytes-utils = "0.1"
