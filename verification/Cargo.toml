[package]
name = "ijiege"
version = "0.1.0"
edition = "2021"
publish = false

[dependencies]
smoltcp = { version = "=0.12.0", default-features = false, features = ["alloc", "medium-ethernet", "proto-ipv4", "socket-tcp", "socket-udp"] }
riscv = "=0.11.1"
lazy_static = "=1.5.1"
