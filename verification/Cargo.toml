[package]
name = "keyframes_aux2"
version = "0.1.0"
edition = "2021"
publish = false

[dependencies]
indexmap = "*"
lazy-regex = "*"
anyhow = "*"
tracing = "*"
serde = { version = "*", features = ["derive"] }
dashmap = "*"
encoding_rs = "*"
tap = "*"
aviutl2 = "*"
aviutl2-eframe = "*"
egui = "*"
windows = "*"
