[package]
name = "calendar"
version = "0.1.0"
edition = "2021"
publish = false

[dependencies]
nanoserde = "*"
sdl3-ttf-sys = "*"
