[package]
name = "wilson_maze"
version = "0.1.0"
edition = "2021"
publish = false

[dependencies]
dioxus = "0.6"
priority-queue = "2"
rand = "0.9"
