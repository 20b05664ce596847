[package]
name = "udp_connections"
version = "0.1.0"
edition = "2021"
publish = false

[dependencies]
crc32fast = "*"
fastrand = "*"
