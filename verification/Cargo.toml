[package]
name = "silly_animals"
version = "0.1.0"
edition = "2021"
publish = false

[dependencies]
termion = "*"
uuid = { version = "1", features = ["v4"] }
