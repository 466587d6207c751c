[package]
name = "map1"
version = "1.1.0"
edition = "2021"
publish = false

[dependencies]
serde = "1"
serde_json = { version = "1", features = ["arbitrary_precision"] }
sha2 = "0.10"
