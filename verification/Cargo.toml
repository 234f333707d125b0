[package]
name = "digital_logic_simulator"
version = "0.1.0"
edition = "2021"
publish = false

[dependencies]
eframe = { version = "0.23", default-features = false, features = ["glow"] }
egui = "0.23"
strum = "=0.26.3"
strum_macros = "=0.26.4"
