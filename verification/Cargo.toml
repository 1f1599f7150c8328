[package]
name = "tract-core"
version = "0.1.0"
edition = "2021"
publish = false

[dependencies]
downcast-rs = "1"
dyn-clone = "1"
