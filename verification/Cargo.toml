[package]
name = "little_raft"
version = "0.2.0"
edition = "2021"
publish = false

[dependencies]
bytes = "1"
crossbeam = "0.8"
crossbeam-channel = "0.5"
rand = "0.8"
