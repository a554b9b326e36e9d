[package]
name = "tfsearch"
version = "0.1.0"
edition = "2021"
publish = false

[dependencies]
xml-rs = "*"
tiny_http = "*"
serde_json = "*"
