[package]
name = "rustag"
version = "0.1.0"
edition = "2021"
publish = false

[dependencies]
chrono = { version = "0.4", features = ["serde"] }
dialoguer = { version = "0.11", features = ["fuzzy-select"] }
postcard = { version = "1", features = ["alloc"] }
serde = { version = "1", features = ["derive"] }
shellexpand = "3"
