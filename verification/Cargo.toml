[package]
name = "cryptocontent"
version = "0.1.0"
edition = "2021"
publish = false

[dependencies]
sodiumoxide = "*"
chrono = "*"
uuid = { version = "*", features = ["v4"] }
