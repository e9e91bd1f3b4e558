[package]
name = "falcon_bms_callbacker"
version = "0.1.0"
edition = "2021"
publish = false

[dependencies]
levenshtein = "=1.0.5"
seahash = "=4.1.0"
log = "=0.4.35"
env_logger = "=0.11.11"
serde = { version = "=1.0.229", features = ["derive"] }
figment = { version = "=0.10.19", features = ["toml"] }
tokio = { version = "=1.54.1", features = ["full"] }
bms-sm = "=0.1.2"
windows = { version = "=0.54.0", features = ["Win32_UI_Input_KeyboardAndMouse", "Win32_Foundation", "Win32_UI_WindowsAndMessaging"] }
