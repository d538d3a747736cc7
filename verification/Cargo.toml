[package]
name = "pikodb"
version = "0.1.0"
edition = "2021"
publish = false

[dependencies]
hnsw_rs = "*"
uuid = { version = "*", features = ["v4"] }
