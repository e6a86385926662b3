[package]
name = "hide_qr"
version = "0.1.0"
edition = "2021"
publish = false

[dependencies]
qrcodegen = "*"
rqrr = "*"
image = "*"
