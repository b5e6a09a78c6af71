[package]
name = "rvos"
version = "0.1.0"
edition = "2021"
publish = false

[dependencies]
xmas-elf = "*"
smoltcp = { version = "0.11", default-features = false, features = ["alloc", "medium-ethernet", "proto-ipv4", "socket-tcp"] }
virtio-drivers = "0.7"
log = "*"
spin = "*"
