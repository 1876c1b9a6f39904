[package]
name = "maze_solver"
version = "0.1.0"
edition = "2021"
publish = false

[dependencies]
priority-queue = "1"
itertools = "0.10"
image = { version = "0.24", default-features = false, features = ["png", "jpeg"] }
