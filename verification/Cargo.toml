[package]
name = "steamy-vdf"
version = "0.2.0"
edition = "2021"
publish = false

[dev-dependencies]
nom = "7"
