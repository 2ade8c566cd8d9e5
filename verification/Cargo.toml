[package]
name = "mac-dir-stat"
version = "0.5.1"
edition = "2021"
publish = false

[dependencies]
egui = "0.31"
jwalk = "0.8"
crossbeam-channel = "0.5"
libc = "0.2"
mimalloc = "0.1"
serde_json = "1"
