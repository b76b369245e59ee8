[package]
name = "request_gate"
version = "0.1.0"
edition = "2021"
publish = false

[dependencies]
percent-encoding = "2"
serde = "1"
http = "1"
headers = "0.4"
