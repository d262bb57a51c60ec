[package]
name = "saddle_ai_behavior_tree"
version = "0.1.0"
edition = "2021"
publish = false

[dependencies]
bevy = { version = "0.17", default-features = false, features = ["std", "bevy_asset", "bevy_gizmos", "bevy_color"] }
ron = "*"
serde = { version = "1", features = ["derive"] }
