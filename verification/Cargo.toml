[package]
name = "bsnobs"
version = "0.1.0"
edition = "2021"
publish = false

[dependencies]
ab_glyph = "0.2"
anyhow = "1"
chrono = { version = "0.4", default-features = false, features = ["alloc", "clock"] }
csv = "1"
eframe = { version = "0.32", default-features = false, features = ["default_fonts", "glow", "x11"] }
egui_extras = { version = "0.32", default-features = false, features = ["image"] }
env_logger = { version = "0.11", default-features = false }
image = { version = "0.25", default-features = false, features = ["jpeg", "png", "tiff"] }
imageproc = { version = "0.25", default-features = false }
log = "0.4"
ndarray = "0.16"
ort = { version = "=2.0.0-rc.10", default-features = false, features = ["load-dynamic", "ndarray", "std"] }
rfd = { version = "0.15", default-features = false, features = ["tokio", "xdg-portal"] }
serde = { version = "1", features = ["derive"] }
serde_json = "1"
