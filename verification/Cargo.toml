[package]
name = "uclient"
version = "0.1.0"
edition = "2021"
publish = false

[dependencies]
mime_multipart = "=0.6.1"
mime_guess = "=2.0.5"
