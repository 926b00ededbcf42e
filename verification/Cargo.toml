[package]
name = "simple_proxy"
version = "0.1.0"
edition = "2021"
publish = false

[dependencies]
log = "=0.4.35"
env_logger = "=0.11.11"
native-tls = "=0.2.18"

[dev-dependencies]
openssl = "=0.10.82"
