[package]
name = "script_layout_interface"
version = "0.1.0"
edition = "2021"
publish = false

[dependencies]
ipc-channel = "*"
serde = { version = "1", features = ["derive"] }
