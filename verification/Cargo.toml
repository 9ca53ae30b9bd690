[package]
name = "regviz"
version = "0.1.0"
edition = "2021"
publish = false

[dependencies]
iced = { version = "0.14", default-features = false, features = ["canvas", "tiny-skia"] }
iced_graphics = { version = "0.14", default-features = false }
log = "0.4"
