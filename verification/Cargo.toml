[package]
name = "fs_analyzer"
version = "0.1.0"
edition = "2021"
publish = false

[dependencies]
log = "=0.4.34"
env_logger = "=0.11.11"
colored = "=3.1.1"

[dev-dependencies]
xmas-elf = "=0.10.0"
siphasher = "=1.0.4"
