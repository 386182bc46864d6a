[package]
name = "objstore"
version = "0.1.0"
edition = "2021"
publish = false

[dependencies]
hex = "0.4"
miniz_oxide = "0.8"
sha1 = "0.10"
