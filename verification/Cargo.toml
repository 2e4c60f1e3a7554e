[package]
name = "zoio"
version = "0.1.0"
edition = "2021"
publish = false

[dependencies]
anyhow = "1"
chrono = { version = "0.4", default-features = false, features = ["clock"] }
csv = "1"
egui = "0.29"
egui_plot = "0.29"
env_logger = { version = "0.11", default-features = false, features = ["humantime"] }
regex = "1"
rfd = { version = "0.15", default-features = false, features = ["xdg-portal", "tokio"] }
serde = { version = "1", features = ["derive"] }
sysinfo = { version = "0.32", default-features = false, features = ["system"] }
