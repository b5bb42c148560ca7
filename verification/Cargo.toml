[package]
name = "autosurgeon"
version = "0.1.0"
edition = "2021"
publish = false

[dependencies]
similar = { version = "*", features = ["unicode"] }
automerge = "*"
