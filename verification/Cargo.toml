[package]
name = "photo_catalog"
version = "0.1.0"
edition = "2021"
publish = false

[dependencies]
sled = "0.34"
chrono = "0.4"
chrono-tz = "0.8"
rand = "0.8"
