[package]
name = "x-notify-service"
version = "0.1.0"
edition = "2021"
publish = false

[dependencies]
serde = { version = "=1.0.229", features = ["derive"] }
serde_json = "=1.0.154"
toml = "=1.1.8"
clap = { version = "=4.6.7", features = ["derive"] }
dirs = "=7.0.0"
fd-lock = "=4.0.4"
log = "=0.4.35"
tiny_http = "=0.12.0"
flexi_logger = { version = "=0.31.10", features = ["async"] }
auto-launch = "=0.6.0"
x11rb = "=0.14.0"
png = "=0.18.1"
windows-sys = { version = "=0.61.2", features = ["Win32_Foundation", "Win32_Storage_FileSystem", "Win32_System_Console", "Win32_UI_WindowsAndMessaging"] }
winreg = "=0.56.0"
