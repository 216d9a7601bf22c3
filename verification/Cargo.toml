[package]
name = "plist"
version = "0.1.0"
edition = "2021"
publish = false

[dependencies]
chrono = { version = "0.4", default-features = false, features = ["std"] }
fnv = "1"
rustc-serialize = "0.3"
xml-rs = "0.8"
