[package]
name = "proto_reflect"
version = "0.1.0"
edition = "2021"
publish = false

[dependencies]
buffa = { version = "*", features = ["json", "std"] }
serde = { version = "1", features = ["derive"] }
serde_json = "1"
