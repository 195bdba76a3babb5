[package]
name = "apfs_core"
version = "0.2.0"
edition = "2021"
publish = false

[dependencies]
miniz_oxide = "*"
winfsp = "*"
winfsp-sys = "*"
self_update = "*"
