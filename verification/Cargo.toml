[package]
name = "graphics"
version = "0.1.0"
edition = "2021"
publish = false

[dependencies]
ash = "0.38"
slotmap = "1"
dashmap = "6"
gpu-allocator = "0.27"
encase = "0.10"
log = "0.4"
