[package]
name = "render_sync"
version = "0.1.0"
edition = "2021"
publish = false

[dependencies]
anymap = "0.12"
crossbeam-channel = "0.5"
dioxus = "0.2"
gleam = "0.15"
glutin = { version = "0.29", default-features = false, features = ["x11"] }
log = "0.4"
taffy = "0.1"
webrender = "0.70"
