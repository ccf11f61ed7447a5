[package]
name = "midi_editor"
version = "0.1.0"
edition = "2021"
publish = false

[dependencies]
midly = "0.5"
egui = "0.32"
eframe = { version = "0.32", default-features = false, features = ["default_fonts", "glow", "x11"] }
egui_extras = "0.32"
rfd = "*"
cpal = "*"
rustysynth = "*"
