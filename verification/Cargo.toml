[package]
name = "pdx_explorer"
version = "0.1.0"
edition = "2021"
publish = false

[dependencies]
diesel = { version = "=2.3.14", default-features = false, features = ["sqlite"] }
eframe = { version = "=0.32.3", default-features = false, features = ["default_fonts", "glow", "persistence", "x11"] }
rfd = { version = "=0.17.2", default-features = false, features = ["xdg-portal"] }
rusqlite = "=0.37.0"
serde = { version = "=1.0.229", features = ["derive"] }
