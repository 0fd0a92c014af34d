[package]
name = "fuselog"
version = "0.1.0"
edition = "2021"
publish = false

[dependencies]
zstd = "*"
fuser = "*"
libc = "*"
log = "*"
env_logger = "*"
once_cell = "*"
