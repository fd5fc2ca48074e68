[package]
name = "wifi_manager"
version = "0.1.0"
edition = "2021"
publish = false

[dependencies]
eframe = { version = "=0.24.1", default-features = false, features = ["default_fonts", "glow", "wayland", "x11"] }
once_cell = "=1.21.4"
