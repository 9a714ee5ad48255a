[package]
name = "thumbnailed"
version = "0.1.0"
edition = "2021"
publish = false

[dependencies]
image = "=0.24.9"
log = "=0.4.34"
env_logger = "=0.11.11"

[dev-dependencies]
tempfile = "3"
