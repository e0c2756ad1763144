[package]
name = "moba_proto"
version = "0.1.0"
edition = "2021"
publish = false

[dependencies]
bytes = "0.4"
futures = "0.1"
serde_json = "1"
tokio = "0.1"
tokio-codec = "0.1"
