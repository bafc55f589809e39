[package]
name = "vmsh"
version = "0.1.0"
edition = "2021"
publish = false

[dependencies]
nix = "0.26"
libc = "0.2"
vm-device = "*"
vm-memory = "*"
clap = { version = "4", features = ["cargo"] }
log = "0.4"
env_logger = "*"
kvm-bindings = "*"
