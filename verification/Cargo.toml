[package]
name = "template_editor"
version = "0.1.0"
edition = "2021"
publish = false

[dependencies]
dirs = "=7.0.0"
eframe = { version = "=0.36.2", default-features = false, features = ["glow", "x11", "wayland"] }
egui_dnd = "=0.17.0"

[dev-dependencies]
serde_json = "=1.0.151"
