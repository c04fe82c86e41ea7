[package]
name = "extender_protocol"
version = "0.1.0"
edition = "2021"
publish = false

[dependencies]
serde = { version = "1", features = ["derive"] }
postcard = { version = "1", features = ["use-std"] }
image = { version = "0.25", default-features = false, features = ["png", "jpeg"] }
qrcode = { version = "*", default-features = false }
egui = "*"
windows = { version = "*", features = ["Win32_Foundation", "Win32_Graphics_Gdi", "Win32_UI_WindowsAndMessaging"] }
