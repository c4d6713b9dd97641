[package]
name = "coral"
version = "0.1.0"
edition = "2021"
publish = false

[dependencies]
rand = "=0.9.5"
discord-rich-presence = "*"
eframe = { version = "*", default-features = false, features = ["glow", "default_fonts", "x11", "persistence"] }
egui = "*"
egui_dnd = "*"
image = { version = "*", default-features = false, features = ["png"] }
lofty = "*"
rodio = "*"
