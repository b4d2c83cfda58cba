[package]
name = "xinqi"
version = "0.1.0"
edition = "2021"
publish = false

[dependencies]
rand = "0.9"
serde = { version = "1", features = ["derive"] }
serde_json = "1"
tokio = { version = "1", features = ["net", "io-util", "sync", "macros", "rt"] }
bevy = { version = "0.16", default-features = false, features = ["bevy_asset", "bevy_color", "bevy_core_pipeline", "bevy_log", "bevy_render", "bevy_sprite", "bevy_window", "png", "std"] }
bevy-tokio-tasks = "0.16"
