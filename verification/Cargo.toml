[package]
name = "mmwave"
version = "0.1.0"
edition = "2021"
publish = false

[dependencies]
regex = "1"
serde = { version = "1", features = ["derive"] }
serde_json = "1"
ndarray = "0.15"
chrono = { version = "0.4", features = ["serde"] }
serialport = { version = "4", default-features = false }
udev = "0.9"
bincode = "1"
