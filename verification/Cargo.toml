[package]
name = "infomaniak-mail-exporter"
version = "0.1.0"
edition = "2021"
publish = false

[dependencies]
sanitize-filename = "0.6"
mail-parser = "0.11"
anyhow = "1"
clap = { version = "4", default-features = false, features = ["std", "derive", "help", "usage", "error-context"] }
csv = "1"
serde = { version = "1", features = ["derive"] }
serde_json = "1"
imap = "2"
native-tls = "0.2"
indicatif = "0.18"
rpassword = "7"
eframe = { version = "0.31", default-features = false, features = ["default_fonts", "glow", "x11"] }
egui_extras = { version = "0.31", default-features = false }
rfd = { version = "0.15", default-features = false, features = ["gtk3"] }
