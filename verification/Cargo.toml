[package]
name = "sst"
version = "0.1.0"
edition = "2021"
publish = false

[dependencies]
clap = "3.0"
env_logger = "0.9"
hashbrown = "0.9"
las = { version = "0.8", default-features = false }
log = "0.4"
num-format = "0.4"
rand = "0.7"
