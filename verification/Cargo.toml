[package]
name = "iradix"
version = "0.3.0"
edition = "2021"
publish = false

[dependencies]
archery = "1"
arc-swap = "1"
event-listener = "5"
