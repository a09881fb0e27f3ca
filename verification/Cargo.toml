[package]
name = "rustyknife"
version = "0.1.0"
edition = "2021"
publish = false

[dependencies]
base64 = "0.13"
charset = "0.1"
encoding = "0.2"
encoding_rs = "0.8"
memmap = "0.7"
