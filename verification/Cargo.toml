[package]
name = "orbit_sense"
version = "0.1.1"
edition = "2021"
publish = false

[dependencies]
sgp4 = "=2.4.0"
chrono = "=0.4.45"
serde = { version = "1", features = ["derive"] }
tokio = { version = "1", default-features = false, features = ["rt-multi-thread", "macros", "sync"] }
reqwest = { version = "0.12", default-features = false, features = ["rustls-tls"] }
eframe = { version = "=0.33.3", default-features = false, features = ["glow", "x11", "default_fonts", "persistence"] }
egui = "=0.33.3"
egui_extras = { version = "=0.33.3", default-features = false, features = ["image"] }
image = { version = "0.25", default-features = false, features = ["png"] }
env_logger = { version = "0.11", default-features = false }
rayon = "1"
