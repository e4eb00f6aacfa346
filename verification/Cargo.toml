[package]
name = "bitcask"
version = "0.1.0"
edition = "2021"
publish = false

[dependencies]
chrono = "*"
glob = "*"
ctrlc = "*"
env_logger = "*"
log = "*"
thiserror = "*"

[dev-dependencies]
rand = "*"
