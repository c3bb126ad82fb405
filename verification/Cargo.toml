[package]
name = "river_crossing"
version = "0.1.0"
edition = "2021"
publish = false

[dependencies]
rand = "=0.9.5"
serde = { version = "=1.0.229", features = ["derive"] }
serde_tuple = "=1.1.3"
strum = { version = "=0.27.2", features = ["derive"] }
strum_macros = "=0.27.2"
enum-map = { version = "=2.7.3", features = ["serde"] }
enumset = { version = "=1.1.15", features = ["serde"] }
glam = "*"
