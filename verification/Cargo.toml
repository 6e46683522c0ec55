[package]
name = "oxium"
version = "0.1.0"
edition = "2021"
publish = false

[dependencies]
anyhow = "1"
arc-swap = "1"
bytemuck = { version = "1", features = ["derive"] }
clap = { version = "4", features = ["derive"] }
crossbeam-channel = "0.5"
egui = { version = "0.29", default-features = false }
env_logger = { version = "0.11", default-features = false }
glam = "0.29"
hecs = "0.10"
image = { version = "0.25", default-features = false, features = ["png"] }
kira = { version = "=0.10.8", default-features = false, features = ["mp3", "ogg", "flac", "wav"] }
log = "0.4"
lru = "=0.12.5"
noise = "0.9"
notify-debouncer-mini = "0.4"
rayon = "1"
ron = "0.8"
serde = { version = "1", features = ["derive"] }
serde_json = "1"
thiserror = "1"
winit = { version = "0.30", default-features = false, features = ["x11", "rwh_06"] }
