[package]
name = "beholder"
version = "0.1.0"
edition = "2021"
publish = false

[dependencies]
env_logger = "*"
libc = "0.2"
log = "0.4"
nix = "0.23"
structopt = "0.3"
