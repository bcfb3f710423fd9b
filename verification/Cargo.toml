[package]
name = "blitz_dom"
version = "0.1.0"
edition = "2021"
publish = false

[dependencies]
accesskit = "*"
winit = "*"
kurbo = "*"
peniko = "*"
anyrender = "*"
arboard = { version = "*", default-features = false }
