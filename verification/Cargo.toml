[package]
name = "lan_screen_stream"
version = "0.1.0"
edition = "2021"
publish = false

[dependencies]
image = "*"
base64 = "*"
socket2 = "*"
