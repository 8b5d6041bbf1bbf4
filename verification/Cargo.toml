[package]
name = "i3bstatus"
version = "0.1.0"
edition = "2021"
publish = false

[dependencies]
libc = "0.2"
time = { version = "0.3", features = ["local-offset"] }

[dev-dependencies]
rustc-serialize = "0.3"
serde_json = "1"
