[package]
name = "pickleback"
version = "0.1.0"
edition = "2021"
publish = false

[dependencies]
byteorder = "1"
bytes = "1"
env_logger = "0.10"
log = "0.4"
rand = "0.8"
smallmap = "1"
bevy = { version = "0.12", default-features = false }
