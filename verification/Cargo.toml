[package]
name = "dbd_auto_skillcheck"
version = "0.1.0"
edition = "2021"
publish = false

[dependencies]
rand = "0.9"
serde = { version = "1", features = ["derive"] }
toml = "0.9"
dirs = "6"
tokio = { version = "1", features = ["rt-multi-thread", "macros", "sync"] }
libc = "0.2"
ash = "0.37"
ashpd = { version = "0.13", default-features = false, features = ["tokio", "screencast"] }
pipewire = "0.9"
egui = { version = "0.34", default-features = false }
eframe = { version = "0.34", default-features = false, features = ["default_fonts", "glow", "wayland"] }
windows-sys = { version = "0.61", features = ["Win32_UI_Input_KeyboardAndMouse"] }
