[package]
name = "cavegen"
version = "0.1.0"
edition = "2021"
publish = false

[dependencies]
bevy = { version = "0.10", default-features = false, features = ["bevy_asset", "bevy_core_pipeline", "bevy_render", "bevy_sprite", "bevy_text"] }
bevy_asset_loader = { version = "0.16", features = ["2d"] }
bevy_ecs_tilemap = "0.10"
bevy_ggrs = "0.12"
bevy_turborand = "0.5"
derive_more = "0.99"
ggrs = "0.9"
