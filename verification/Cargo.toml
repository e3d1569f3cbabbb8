[package]
name = "blob_renderer"
version = "0.1.0"
edition = "2021"
publish = false

[dependencies]
rayon = "1"
webrender_api = { version = "*", default-features = false }
