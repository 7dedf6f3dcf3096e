[package]
name = "learn"
version = "0.1.0"
edition = "2021"
publish = false

[dependencies]
bytes = "1"
dashmap = "*"
flate2 = "1"
prost = "*"
sled = "0.34"
tokio = { version = "1", features = ["rt", "sync", "io-util"] }

[dev-dependencies]
tempfile = "3"
