[package]
name = "rcloneflix"
version = "0.1.0"
edition = "2021"
publish = false

[dependencies]
portpicker = "*"
serde_json = "*"
