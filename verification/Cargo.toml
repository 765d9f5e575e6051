[package]
name = "bevy_gearbox"
version = "0.1.0"
edition = "2021"
publish = false

[dependencies]
bevy = { version = "0.17", default-features = false }
bevy_ecs = { version = "0.17", default-features = false }
bevy_platform = "0.17"
bevy_time = { version = "0.17", default-features = false }
