[package]
name = "ashenveil"
version = "0.1.0"
edition = "2021"
publish = false

[dependencies]
bevy = { version = "0.15", default-features = false, features = ["bevy_asset", "bevy_color", "bevy_core_pipeline", "bevy_gltf", "bevy_pbr", "bevy_render", "bevy_scene", "bevy_window", "bevy_winit", "x11", "multi_threaded", "tonemapping_luts", "ktx2", "zstd", "png"] }
