[package]
name = "waypoints"
version = "0.1.0"
edition = "2021"
publish = false

[dependencies]
clipboard-win = "=5.4.1"
regex = "*"
