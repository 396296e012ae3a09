[package]
name = "fuzzy_cluster"
version = "0.1.0"
edition = "2021"
publish = false

[dependencies]
eframe = { version = "0.20", default-features = false, features = ["glow"] }
egui = "=0.20.1"
rand = "=0.8.8"
