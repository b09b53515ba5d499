[package]
name = "present24"
version = "0.1.0"
edition = "2021"
publish = false

[dependencies]
threadpool = "*"
crossbeam-channel = "*"
jemallocator = "*"
