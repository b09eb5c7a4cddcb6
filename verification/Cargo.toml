[package]
name = "tombola"
version = "0.1.0"
edition = "2021"
publish = false

[dependencies]
avian2d = { version = "=0.3.1", default-features = false, features = ["2d", "f32", "parry-f32"] }
bevy = { version = "=0.16.1", default-features = false, features = ["std", "bevy_asset", "bevy_color", "bevy_core_pipeline", "bevy_render", "bevy_sprite", "bevy_window"] }
midir = "=0.10.4"
strum = "=0.27.2"
strum_macros = "=0.27.2"
