[package]
name = "logfilter"
version = "0.1.0"
edition = "2021"
publish = false

[dependencies]
anyhow = "1"
arboard = { version = "*", default-features = false }
chrono = { version = "0.4", default-features = false, features = ["clock"] }
crossbeam-channel = "0.5"
directories = "*"
eframe = { version = "*", default-features = false, features = ["default_fonts", "glow", "x11"] }
egui = { version = "*", default-features = false }
egui_extras = { version = "*", default-features = false }
egui-i18n = "*"
encoding_rs = "0.8"
image = { version = "0.25", default-features = false, features = ["ico"] }
regex = "1"
rfd = { version = "*", default-features = false, features = ["xdg-portal", "async-std"] }
serde = { version = "1", features = ["derive"] }
shlex = "1"
sys-locale = "0.3"
toml = "*"
tracing-subscriber = { version = "0.3", features = ["env-filter"] }
