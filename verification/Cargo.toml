[package]
name = "hex_encoder"
version = "0.1.0"
edition = "2021"
publish = false

[dependencies]
serde_json = "=1.0.154"
regex = "1"
enigo = "=0.6.1"
device_query = "=4.0.1"
enable-ansi-support = "=0.3.1"
