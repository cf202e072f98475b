[package]
name = "zenoh_peer"
version = "0.1.0"
edition = "2021"
publish = false

[dependencies]
async-std = "=1.13.2"
hex = "=0.4.3"
log = "0.4"
uhlc = "=0.3.1"
uuid = { version = "=1.29.0", features = ["v4"] }
