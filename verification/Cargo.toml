[package]
name = "steam_activity_sniper"
version = "0.1.0"
edition = "2021"
publish = false

[dependencies]
chrono = "*"
serde = { version = "*", features = ["derive"] }
serde_json = "*"
tiny_http = "*"
eframe = { version = "*", default-features = false, features = ["default_fonts", "glow", "x11"] }
egui = "*"
egui_plot = "*"
