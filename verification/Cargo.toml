[package]
name = "darkstar"
version = "0.1.0"
edition = "2021"
publish = false

[dependencies]
sophia = "=0.10.0"
rayon = "=1.12.0"
serde = { version = "=1.0.229", features = ["derive"] }
serde_json = "=1.0.154"
libloading = "=0.9.0"
eframe = { version = "0.29", default-features = false, features = ["default_fonts", "glow", "x11"] }
egui_dock = "0.14"
rfd = { version = "0.15", default-features = false, features = ["xdg-portal", "tokio"] }
