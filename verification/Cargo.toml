[package]
name = "touchhle"
version = "0.1.0"
edition = "2021"
publish = false

[dependencies]
plist = "1"
