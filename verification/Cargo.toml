[package]
name = "dpg"
version = "0.1.0"
edition = "2021"
publish = false

[dependencies]
rand = "*"
priority-queue = "*"
pathfinding = "*"
num = "*"
itertools = "*"
image = "*"
tempfile = "*"
indicatif = "*"
