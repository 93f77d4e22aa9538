[package]
name = "frame_decoder"
version = "0.1.0"
edition = "2021"
publish = false

[dependencies]
serde_json = "1"
serde = { version = "1", features = ["derive"] }
thiserror = "1"
once_cell = "1"
dirs-next = "2"
tauri = { version = "2", default-features = false }
tauri-plugin-fs = "2"
