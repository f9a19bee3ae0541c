[package]
name = "nolock"
version = "0.4.1"
edition = "2021"
publish = false

[dependencies]
futures = "0.3"
