[package]
name = "pocket_apps"
version = "0.1.0"
edition = "2021"
publish = false

[dependencies]
base58 = "0.2"
bytes = "1"
k256 = { version = "0.13", features = ["ecdsa"] }
rand = "0.8"
ripemd = "0.1"
sha2 = "0.10"
tokio = { version = "1", features = ["full"] }
