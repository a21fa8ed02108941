[package]
name = "nodes-gui"
version = "0.1.0"
edition = "2021"
publish = false

[dependencies]
egui = "0.32"
eframe = { version = "0.32", default-features = false, features = ["default_fonts", "glow", "x11"] }
rpds = "1"
paste = "1"
