[package]
name = "http_exchange"
version = "0.1.0"
edition = "2021"
publish = false

[dependencies]
httparse = "=1.10.1"
efi = "=0.3.1"
