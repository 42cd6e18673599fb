[package]
name = "del_add"
version = "0.1.0"
edition = "2021"
publish = false

[dependencies]
anyhow = "1"
chrono = { version = "0.4", features = ["serde"] }
log = "0.4"
obkv = "0.2"
serde = { version = "1", features = ["derive"] }

[dev-dependencies]
itertools = "0.10"
