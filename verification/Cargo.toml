[package]
name = "superstate"
version = "0.1.0"
edition = "2021"
publish = false

[dependencies]
bevy_app = { version = "*", default-features = false }
bevy_ecs = { version = "*", default-features = false }
