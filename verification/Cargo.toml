[package]
name = "rdp-anchor"
version = "0.0.1"
edition = "2021"
publish = false

[dependencies]
dirs = "5"
encoding_rs = "0.8"
serde = { version = "1", features = ["derive"] }
serde_json = "1"
windows = { version = "0.58", features = ["Win32_Foundation", "Win32_Graphics_Gdi", "Win32_UI_Input_KeyboardAndMouse", "Win32_UI_WindowsAndMessaging"] }
