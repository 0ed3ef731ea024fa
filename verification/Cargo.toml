[package]
name = "adb_on"
version = "0.1.0"
edition = "2021"
publish = false

[dependencies]
sha2 = "0.10"
directories = "*"
serde = { version = "1", features = ["derive"] }
serde_json = "1"
ureq = "3"
zip = { version = "*", default-features = false, features = ["deflate"] }
sys-locale = "*"
open = "*"
libc = "0.2"
windows-sys = { version = "*", features = ["Win32_Foundation", "Win32_System_Pipes", "Win32_System_Threading", "Win32_UI_WindowsAndMessaging"] }
