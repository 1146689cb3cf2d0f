[package]
name = "actix_remote"
version = "0.1.0"
edition = "2021"
publish = false

[dependencies]
backoff = "*"
net2 = "*"
