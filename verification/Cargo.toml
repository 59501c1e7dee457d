[package]
name = "isometric_sort"
version = "0.1.0"
edition = "2021"
publish = false

[dependencies]
bevy = { version = "0.10", default-features = false, features = ["bevy_asset", "bevy_scene"] }
topological-sort = "0.2"
