[package]
name = "pointcloud"
version = "0.1.0"
edition = "2021"
publish = false

[dependencies]
bitvector = "*"
csv = "*"
