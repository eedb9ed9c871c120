[package]
name = "bevy_quinn"
version = "0.1.0"
edition = "2021"
publish = false

[dependencies]
bevy = { version = "0.14", default-features = false }
quinn-proto = "0.11"
quinn-udp = "0.5"

[dev-dependencies]
rustls = { version = "0.23", default-features = false, features = ["ring", "std"] }
rcgen = "0.13"
