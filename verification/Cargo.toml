[package]
name = "sudoku_generator"
version = "0.1.0"
edition = "2021"
publish = false

[dependencies]
rand = "0.8"
serde = { version = "1", features = ["derive"] }
egui = "0.29"
eframe = { version = "0.29", default-features = false, features = ["default_fonts", "glow", "persistence", "x11"] }
egui_extras = { version = "0.29", default-features = false, features = ["image"] }
image = { version = "0.25", default-features = false, features = ["png"] }
