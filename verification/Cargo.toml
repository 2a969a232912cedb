[package]
name = "egui_json_tree"
version = "0.1.0"
edition = "2021"
publish = false

[dependencies]
egui = "0.31"
serde_json = "1"
