[package]
name = "warehouse"
version = "0.1.0"
edition = "2021"
publish = false

[dependencies]
chrono = "*"
console = "*"
dialoguer = "*"

[dev-dependencies]
itertools = "*"
