[package]
name = "git_starter_rust"
version = "0.1.0"
edition = "2021"
publish = false

[dependencies]
flate2 = "1.0"
sha1 = "0.10"
