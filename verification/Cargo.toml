[package]
name = "jsntrs"
version = "0.1.0"
edition = "2021"
publish = false

[dependencies]
base64 = "0.22"
fastrand = "2"
percent-encoding = "2"
regex-lite = "0.1"
stacker = "0.1"
