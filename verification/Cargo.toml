[package]
name = "rmde-core"
version = "0.1.0"
edition = "2021"
publish = false

[dependencies]
ropey = "1.6"
thiserror = "1"
swift-bridge = "0.1"
