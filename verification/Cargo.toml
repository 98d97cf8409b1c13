[package]
name = "resurgence"
version = "0.1.0"
edition = "2021"
publish = false

[dependencies]
bevy = { version = "=0.16.1", default-features = false, features = ["std", "async_executor", "bevy_asset", "bevy_color", "bevy_core_pipeline", "bevy_pbr", "bevy_render", "bevy_sprite", "bevy_state", "bevy_text", "bevy_ui", "bevy_window", "default_font", "multi_threaded", "png", "tonemapping_luts"] }
bevy_ecs_tilemap = { version = "=0.16.0", default-features = false, features = ["render"] }
bevy_panorbit_camera = { version = "=0.26.0", default-features = false }
noise = { version = "=0.9.0", default-features = false }
