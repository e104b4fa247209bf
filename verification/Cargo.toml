[package]
name = "oryx"
version = "0.1.0"
edition = "2021"
publish = false

[dependencies]
sha2 = "0.10"
base16ct = { version = "0.2", features = ["alloc"] }
uuid = { version = "1", features = ["v4"] }
tempfile = "3"
