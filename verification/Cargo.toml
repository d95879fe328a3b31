[package]
name = "vidzy"
version = "0.1.0"
edition = "2021"
publish = false

[dependencies]
rand = "0.9"
libmpv = "2"
smol = "2"
futures = "0.3"
