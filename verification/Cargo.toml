[package]
name = "liongbot"
version = "0.1.0"
edition = "2021"
publish = false

[dependencies]
base64 = "0.13"
bytes = "0.4"
encoding_rs = "0.8"
