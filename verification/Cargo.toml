[package]
name = "redis_lite"
version = "0.1.0"
edition = "2021"
publish = false

[dependencies]
rand = "=0.10.3"
mio = { version = "=1.2.4", features = ["os-poll", "net"] }
log = "=0.4.35"
env_logger = "=0.11.11"
