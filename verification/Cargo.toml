[package]
name = "der_codec"
version = "0.1.0"
edition = "2021"
publish = false

[dependencies]
x509-cert = "*"
serde_json = "*"
lite-json = "*"
