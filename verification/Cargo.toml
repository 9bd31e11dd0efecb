[package]
name = "hexlife"
version = "0.1.0"
edition = "2021"
publish = false

[dependencies]
h3o = "*"
rand = "0.8"

[dev-dependencies]
geojson = "*"
