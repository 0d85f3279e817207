[package]
name = "fastnbt"
version = "0.18.0"
edition = "2021"
publish = false

[dependencies]
serde = { version = "1", features = ["derive"] }
