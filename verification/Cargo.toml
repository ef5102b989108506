[package]
name = "maze_gen"
version = "0.1.0"
edition = "2021"
publish = false

[dependencies]
rand = "0.8"
anyhow = "1"
image = { version = "0.24", default-features = false, features = ["png"] }
egui = "0.22"
eframe = { version = "0.22", default-features = false, features = ["glow", "default_fonts"] }
im-native-dialog = "*"
