[package]
name = "margolus"
version = "0.1.0"
edition = "2021"
publish = false

[dependencies]
eframe = { version = "0.26", default-features = false, features = ["glow", "persistence"] }
egui = "0.26"
serde = { version = "1", features = ["derive"] }
