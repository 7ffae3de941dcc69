[package]
name = "delog_app"
version = "0.1.0"
edition = "2021"
publish = false

[dependencies]
directories = "=6.0.0"
eframe = { version = "=0.36.2", default-features = false, features = ["default_fonts", "wgpu", "x11"] }
egui = "=0.36.2"
egui_code_editor = "=0.4.2"
egui_dock = "=0.21.1"
egui_extras = "=0.36.2"
egui_graph = "=0.19.1"
egui_tiles = "=0.17.1"
glam = "=0.34.2"
image = { version = "=0.25.10", default-features = false, features = ["png"] }
rfd = { version = "=0.17.2", default-features = false, features = ["xdg-portal"] }
serde = { version = "=1.0.229", features = ["derive"] }
serde_json = "=1.0.154"
tempfile = "=3.27.0"
tracing = "=0.1.44"
tracing-subscriber = { version = "=0.3.23", features = ["env-filter"] }
