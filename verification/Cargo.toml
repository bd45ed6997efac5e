[package]
name = "senha"
version = "0.1.0"
edition = "2021"
publish = false

[dependencies]
aes = "0.7.5"
base64 = "0.22"
rusqlite = { version = "*", features = ["bundled"] }

[dev-dependencies]
block-modes = "0.8.1"
block-padding = "0.2.1"
