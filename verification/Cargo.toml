[package]
name = "docdb"
version = "0.1.0"
edition = "2021"
publish = false

[dependencies]
sled = "*"
serde_json = "*"

[dev-dependencies]
tempfile = "*"
rand = "*"
