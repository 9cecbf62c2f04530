[package]
name = "sortviz"
version = "0.1.0"
edition = "2021"
publish = false

[dependencies]
rand = "=0.10.3"
oneshot = { version = "=0.2.1", features = ["std"] }
