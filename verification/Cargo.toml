[package]
name = "enet_relay"
version = "0.1.0"
edition = "2021"
publish = false

[dependencies]
enet-sys = "=0.2.3"
