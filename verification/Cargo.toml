[package]
name = "truck_shapeops"
version = "0.1.0"
edition = "2021"
publish = false

[dependencies]
truck-base = "*"
truck-geometry = "*"
truck-geotrait = "*"
truck-topology = "*"
truck-meshalgo = "*"
rustc-hash = "*"
