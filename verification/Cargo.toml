[package]
name = "bevy_dioxus"
version = "0.1.0"
edition = "2021"
publish = false

[dependencies]
bevy = { version = "0.15", default-features = false, features = ["bevy_asset", "bevy_color", "bevy_render", "bevy_text", "bevy_ui"] }
dioxus = { version = "0.5", default-features = false }
