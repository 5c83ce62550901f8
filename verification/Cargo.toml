[package]
name = "nisabo"
version = "0.1.0"
edition = "2021"
publish = false

[dependencies]
similar = "=2.7.0"
serde_json = "=1.0.154"
pulldown-cmark = { version = "=0.13.5", default-features = false, features = ["html"] }
chrono = { version = "=0.4.45", default-features = false, features = ["std"] }
rusqlite = "=0.41.0"
serde = { version = "=1.0.229", features = ["derive"] }
toml = "=1.1.8"
dirs = "=7.0.0"
log = "=0.4.34"
env_logger = "=0.11.11"
eframe = { version = "*", default-features = false, features = ["default_fonts", "glow", "x11"] }
egui = { version = "*", default-features = false }
egui_extras = { version = "*", default-features = false }
rfd = { version = "*", default-features = false, features = ["xdg-portal", "tokio"] }
