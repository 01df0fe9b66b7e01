[package]
name = "rustyknife"
version = "0.2.0"
edition = "2021"
publish = false

[dependencies]
encoding = "0.2"
base64 = "*"
