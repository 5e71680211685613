[package]
name = "regolix"
version = "0.1.0"
edition = "2021"
publish = false

[dependencies]
regorus = "0.5.0"
rustler = "0.36.2"
