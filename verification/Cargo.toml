[package]
name = "video_manager_egui"
version = "0.1.0"
edition = "2021"
publish = false

[dependencies]
sha2 = "=0.11.1"
hmac = "=0.13.0"
hex = "=0.4.3"
chrono = "=0.4.45"
reqwest = { version = "=0.12.28", default-features = false, features = ["blocking", "rustls-tls"] }
serde = { version = "=1.0.229", features = ["derive"] }
serde_json = "=1.0.154"
quick-xml = { version = "=0.42.0", features = ["serialize"] }
native_messaging = "=0.3.0"
dirs = "=7.0.0"
garde = { version = "=0.23.0", features = ["derive", "url"] }
eframe = { version = "=0.37.0", default-features = false, features = ["default_fonts", "glow", "x11"] }
egui = "=0.37.0"
egui_extras = "=0.37.0"
egui_dnd = "=0.18.0"
egui_form = { version = "=0.11.0", features = ["validator_garde"] }
egui_table = "=0.11.0"
